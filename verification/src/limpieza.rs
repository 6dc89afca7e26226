//! Normalising the raw text of a document before its questions are read:
//! line endings, decorative lines, runs of blank lines and texts whose
//! paragraphs came out as one long line.
use vstd::prelude::*;
use crate::texto::{
    recortar, lema_recortar_idempotente, lema_racha_tras_uno,
    reemplazar_desde,
    racha, lema_racha_acotada, contar_racha, Clase, es_espacio, espacio, es_letra_opcion,
    coincide_en, lineas, lineas_exec, vistas, reemplazar, reemplazar_exec, copiar_rango,
};

verus! {

/// Position `i` starts a line of `s` (the anchor `^` of a multi-line pattern).
pub open spec fn es_inicio_linea(s: Seq<char>, i: int) -> bool {
    i == 0 || (0 < i <= s.len() && s[i - 1] == '\n')
}

/// Position `j` ends a line of `s` (the anchor `$` of a multi-line pattern).
pub open spec fn es_fin_linea(s: Seq<char>, j: int) -> bool {
    j == s.len() || (0 <= j < s.len() && s[j] == '\n')
}

/// The largest `d <= k` for which `a + d` ends a line of `s`: how far a greedy
/// run that starts at `a`, may take `k` characters and must be followed by `$`
/// reaches.
pub open spec fn ultimo_fin_linea(s: Seq<char>, a: int, k: int) -> Option<int>
    decreases k,
{
    if k < 0 {
        None
    } else if es_fin_linea(s, a + k) {
        Some(k)
    } else if k == 0 {
        None
    } else {
        ultimo_fin_linea(s, a, k - 1)
    }
}

pub proof fn lema_ultimo_fin_linea(s: Seq<char>, a: int, k: int)
    ensures
        ultimo_fin_linea(s, a, k) matches Some(d) ==> 0 <= d <= k && es_fin_linea(s, a + d),
        ultimo_fin_linea(s, a, k) is None ==> forall|d: int|
            0 <= d <= k ==> !#[trigger] es_fin_linea(s, a + d),
    decreases k,
{
    if k > 0 && !es_fin_linea(s, a + k) {
        lema_ultimo_fin_linea(s, a, k - 1);
    }
}

pub fn ultimo_fin_linea_exec(t: &Vec<char>, a: usize, k: usize) -> (r: Option<usize>)
    requires
        a + k <= t@.len(),
    ensures
        r matches Some(d) ==> ultimo_fin_linea(t@, a as int, k as int) == Some(d as int),
        r is None ==> ultimo_fin_linea(t@, a as int, k as int) is None,
{
    let largo = t.len();
    let mut d = k;
    loop
        invariant
            largo == t@.len(),
            a + d <= t@.len(),
            d <= k,
            ultimo_fin_linea(t@, a as int, k as int) == ultimo_fin_linea(t@, a as int, d as int),
        decreases d,
    {
        if a + d == largo || t[a + d] == '\n' {
            return Some(d);
        }
        if d == 0 {
            return None;
        }
        d -= 1;
    }
}

/// `(?m)^[\s\-_=*]{5,}$` at `i`: the end of the decorative line that starts
/// there, if one does.
pub open spec fn decoracion_en(s: Seq<char>, i: int) -> Option<int> {
    let n = racha(s, i, Clase::Decorativo);
    if es_inicio_linea(s, i) && n >= 5 {
        match ultimo_fin_linea(s, i + 5, n - 5) {
            Some(d) => Some(i + 5 + d),
            None => None,
        }
    } else {
        None
    }
}

pub proof fn lema_decoracion_en(s: Seq<char>, i: int)
    requires
        0 <= i <= s.len(),
    ensures
        decoracion_en(s, i) matches Some(e) ==> i + 5 <= e <= s.len(),
{
    lema_racha_acotada(s, i, Clase::Decorativo);
    let n = racha(s, i, Clase::Decorativo);
    lema_ultimo_fin_linea(s, i + 5, n - 5);
}

/// Every decorative line from `i` on removed, as `replace_all` removes the
/// matches of the pattern from left to right.
pub open spec fn quitar_decoracion_desde(s: Seq<char>, i: int) -> Seq<char>
    decreases s.len() - i,
{
    if i < 0 || i >= s.len() {
        Seq::empty()
    } else {
        proof {
            lema_decoracion_en(s, i);
        }
        match decoracion_en(s, i) {
            Some(e) => quitar_decoracion_desde(s, e),
            None => seq![s[i]] + quitar_decoracion_desde(s, i + 1),
        }
    }
}

pub fn decoracion_en_exec(t: &Vec<char>, i: usize) -> (r: Option<usize>)
    requires
        i <= t@.len(),
    ensures
        r matches Some(e) ==> decoracion_en(t@, i as int) == Some(e as int),
        r is None ==> decoracion_en(t@, i as int) is None,
{
    if !(i == 0 || t[i - 1] == '\n') {
        return None;
    }
    let n = contar_racha(t, i, Clase::Decorativo);
    let largo = t.len();
    if n < 5 {
        return None;
    }
    let r = ultimo_fin_linea_exec(t, i + 5, n - 5);
    proof {
        lema_ultimo_fin_linea(t@, i + 5, n - 5);
    }
    match r {
        Some(d) => Some(i + 5 + d),
        None => None,
    }
}

pub fn quitar_decoracion(t: &Vec<char>) -> (r: Vec<char>)
    ensures
        r@ == quitar_decoracion_desde(t@, 0),
{
    let mut r: Vec<char> = Vec::new();
    let mut i: usize = 0;
    while i < t.len()
        invariant
            i <= t@.len(),
            r@ + quitar_decoracion_desde(t@, i as int) == quitar_decoracion_desde(t@, 0),
        decreases t@.len() - i,
    {
        proof {
            lema_decoracion_en(t@, i as int);
        }
        match decoracion_en_exec(t, i) {
            Some(e) => {
                i = e;
            },
            None => {
                let ghost antes = r@;
                r.push(t[i]);
                assert(antes + (seq![t@[i as int]] + quitar_decoracion_desde(t@, i + 1)) =~= r@
                    + quitar_decoracion_desde(t@, i + 1));
                i += 1;
            },
        }
    }
    assert(r@ + quitar_decoracion_desde(t@, i as int) =~= r@);
    r
}

/// Every run of at least `minimo` line breaks (`\n{minimo,}`) from `i` on
/// replaced by `\n\n`.
pub open spec fn compactar_saltos_desde(s: Seq<char>, i: int, minimo: nat) -> Seq<char>
    decreases s.len() - i,
{
    if i < 0 || i >= s.len() {
        Seq::empty()
    } else {
        let n = racha(s, i, Clase::Salto);
        proof {
            lema_racha_acotada(s, i, Clase::Salto);
        }
        if n >= minimo && n > 0 {
            seq!['\n', '\n'] + compactar_saltos_desde(s, i + n, minimo)
        } else {
            seq![s[i]] + compactar_saltos_desde(s, i + 1, minimo)
        }
    }
}

pub fn compactar_saltos(t: &Vec<char>, minimo: usize) -> (r: Vec<char>)
    ensures
        r@ == compactar_saltos_desde(t@, 0, minimo as nat),
{
    let mut r: Vec<char> = Vec::new();
    let mut i: usize = 0;
    while i < t.len()
        invariant
            i <= t@.len(),
            r@ + compactar_saltos_desde(t@, i as int, minimo as nat) == compactar_saltos_desde(
                t@,
                0,
                minimo as nat,
            ),
        decreases t@.len() - i,
    {
        let n = contar_racha(t, i, Clase::Salto);
        let ghost antes = r@;
        if n >= minimo && n > 0 {
            r.push('\n');
            r.push('\n');
            assert(antes + (seq!['\n', '\n'] + compactar_saltos_desde(t@, i + n, minimo as nat))
                =~= r@ + compactar_saltos_desde(t@, i + n, minimo as nat));
            i += n;
        } else {
            r.push(t[i]);
            assert(antes + (seq![t@[i as int]] + compactar_saltos_desde(t@, i + 1, minimo as nat))
                =~= r@ + compactar_saltos_desde(t@, i + 1, minimo as nat));
            i += 1;
        }
    }
    assert(r@ + compactar_saltos_desde(t@, i as int, minimo as nat) =~= r@);
    r
}

/// The number of bytes of `c` in UTF-8.
pub open spec fn ancho_utf8(c: char) -> nat {
    let u = c as u32;
    if u < 0x80 {
        1
    } else if u < 0x800 {
        2
    } else if u < 0x10000 {
        3
    } else {
        4
    }
}

/// The number of bytes of `s` in UTF-8: what `str::len` answers.
pub open spec fn largo_utf8(s: Seq<char>) -> nat
    decreases s.len(),
{
    if s.len() == 0 {
        0
    } else {
        largo_utf8(s.drop_last()) + ancho_utf8(s.last())
    }
}

pub proof fn lema_largo_utf8_prefijo(s: Seq<char>, i: int)
    requires
        0 <= i <= s.len(),
    ensures
        largo_utf8(s.take(i)) <= largo_utf8(s),
    decreases s.len() - i,
{
    if i < s.len() {
        lema_largo_utf8_prefijo(s, i + 1);
        assert(s.take(i + 1).drop_last() =~= s.take(i));
    } else {
        assert(s.take(i) =~= s);
    }
}

/// Whether `l` takes more than `limite` bytes in UTF-8.
pub fn supera_bytes(l: &Vec<char>, limite: usize) -> (r: bool)
    requires
        limite < usize::MAX - 4,
    ensures
        r == (largo_utf8(l@) > limite),
{
    let mut suma: usize = 0;
    let mut i: usize = 0;
    while i < l.len()
        invariant
            i <= l@.len(),
            limite < usize::MAX - 4,
            suma == largo_utf8(l@.take(i as int)),
            suma <= limite,
        decreases l@.len() - i,
    {
        let u = l[i] as u32;
        let ancho: usize = if u < 0x80 {
            1
        } else if u < 0x800 {
            2
        } else if u < 0x10000 {
            3
        } else {
            4
        };
        assert(l@.take(i + 1).drop_last() =~= l@.take(i as int));
        suma = suma + ancho;
        i += 1;
        if suma > limite {
            proof {
                lema_largo_utf8_prefijo(l@, i as int);
            }
            return true;
        }
    }
    assert(l@.take(i as int) =~= l@);
    false
}

/// Some line of `s` takes more than 200 bytes.
pub open spec fn hay_linea_larga(s: Seq<char>) -> bool {
    exists|k: int| 0 <= k < lineas(s).len() && largo_utf8(#[trigger] lineas(s)[k]) > 200
}

/// ` (\d{1,3})\.-\s` at `i`: the number of digits of the match, if one starts there.
pub open spec fn numero_pegado_en(s: Seq<char>, i: int) -> Option<int> {
    let d = racha(s, i + 1, Clase::Digito);
    if 0 <= i < s.len() && s[i] == ' ' && 1 <= d <= 3 && coincide_en(s, i + 1 + d, seq!['.', '-'])
        && i + 3 + d < s.len() && es_espacio(s[i + 3 + d]) {
        Some(d as int)
    } else {
        None
    }
}

/// Every ` N.- ` from `i` on moved to a line of its own (`\n$1.- `).
pub open spec fn separar_numeros_desde(s: Seq<char>, i: int) -> Seq<char>
    decreases s.len() - i,
{
    if i < 0 || i >= s.len() {
        Seq::empty()
    } else {
        match numero_pegado_en(s, i) {
            Some(d) => seq!['\n'] + s.subrange(i + 1, i + 1 + d) + seq!['.', '-', ' ']
                + separar_numeros_desde(s, i + 4 + d),
            None => seq![s[i]] + separar_numeros_desde(s, i + 1),
        }
    }
}

/// ` ([a-dA-D])\.-\s` at `i`.
pub open spec fn letra_pegada_en(s: Seq<char>, i: int) -> bool {
    0 <= i && i + 4 < s.len() && s[i] == ' ' && es_letra_opcion(s[i + 1]) && s[i + 2] == '.'
        && s[i + 3] == '-' && es_espacio(s[i + 4])
}

/// Every ` x.- ` from `i` on moved to a line of its own (`\n$1.- `).
pub open spec fn separar_letras_desde(s: Seq<char>, i: int) -> Seq<char>
    decreases s.len() - i,
{
    if i < 0 || i >= s.len() {
        Seq::empty()
    } else if letra_pegada_en(s, i) {
        seq!['\n', s[i + 1], '.', '-', ' '] + separar_letras_desde(s, i + 5)
    } else {
        seq![s[i]] + separar_letras_desde(s, i + 1)
    }
}

/// A text with a line over 200 bytes has its numbered questions and lettered
/// options written `N.-` and `x.-` put on lines of their own.
pub open spec fn separar_si_concatenado_spec(s: Seq<char>) -> Seq<char> {
    if hay_linea_larga(s) {
        separar_letras_desde(separar_numeros_desde(s, 0), 0)
    } else {
        s
    }
}

/// Line endings `\r\n` and `\r` made `\n`.
pub open spec fn normalizar_finales(s: Seq<char>) -> Seq<char> {
    reemplazar(reemplazar(s, seq!['\r', '\n'], seq!['\n']), seq!['\r'], seq!['\n'])
}

/// The whole cleaning of a document's text: line endings made `\n`, decorative
/// lines removed, runs of four or more line breaks made two, and run-together
/// questions and options split.
pub open spec fn limpiar_texto_spec(s: Seq<char>) -> Seq<char> {
    let normalizado = normalizar_finales(s);
    separar_si_concatenado_spec(compactar_saltos_desde(quitar_decoracion_desde(normalizado, 0), 0, 4))
}

fn hay_linea_larga_exec(t: &Vec<char>) -> (r: bool)
    ensures
        r == hay_linea_larga(t@),
{
    let ls = lineas_exec(t);
    let mut k: usize = 0;
    while k < ls.len()
        invariant
            k <= ls@.len(),
            vistas(ls@) == lineas(t@),
            forall|j: int| 0 <= j < k ==> largo_utf8(#[trigger] lineas(t@)[j]) <= 200,
        decreases ls@.len() - k,
    {
        assert(vistas(ls@)[k as int] == ls@[k as int]@);
        if supera_bytes(&ls[k], 200) {
            assert(largo_utf8(lineas(t@)[k as int]) > 200);
            return true;
        }
        k += 1;
    }
    false
}

fn separar_numeros(t: &Vec<char>) -> (r: Vec<char>)
    ensures
        r@ == separar_numeros_desde(t@, 0),
{
    let largo = t.len();
    let mut r: Vec<char> = Vec::new();
    let mut i: usize = 0;
    while i < largo
        invariant
            largo == t@.len(),
            i <= t@.len(),
            r@ + separar_numeros_desde(t@, i as int) == separar_numeros_desde(t@, 0),
        decreases t@.len() - i,
    {
        let ghost antes = r@;
        let mut encontrado = false;
        if t[i] == ' ' && i + 1 <= largo {
            let d = contar_racha(t, i + 1, Clase::Digito);
            if 1 <= d && d <= 3 && largo - i > 3 + d && t[i + 1 + d] == '.'
                && t[i + 2 + d] == '-' && espacio(t[i + 3 + d]) {
                assert(t@.subrange(i + 1 + d, i + 3 + d) =~= seq!['.', '-']);
                assert(numero_pegado_en(t@, i as int) == Some(d as int));
                r.push('\n');
                let digitos = copiar_rango(t, i + 1, i + 1 + d);
                crate::texto::anexar(&mut r, &digitos);
                r.push('.');
                r.push('-');
                r.push(' ');
                assert(antes + (seq!['\n'] + t@.subrange(i + 1, i + 1 + d) + seq!['.', '-', ' ']
                    + separar_numeros_desde(t@, i + 4 + d)) =~= r@ + separar_numeros_desde(
                    t@,
                    i + 4 + d,
                ));
                i = i + 4 + d;
                encontrado = true;
            } else {
                proof {
                    if i + 3 + d < largo && coincide_en(t@, i + 1 + d, seq!['.', '-']) {
                        assert(t@.subrange(i + 1 + d, i + 3 + d)[0] == t@[i + 1 + d]);
                        assert(t@.subrange(i + 1 + d, i + 3 + d)[1] == t@[i + 2 + d]);
                    }
                }
            }
        }
        if !encontrado {
            assert(numero_pegado_en(t@, i as int) is None);
            r.push(t[i]);
            assert(antes + (seq![t@[i as int]] + separar_numeros_desde(t@, i + 1)) =~= r@
                + separar_numeros_desde(t@, i + 1));
            i += 1;
        }
    }
    assert(r@ + separar_numeros_desde(t@, i as int) =~= r@);
    r
}

fn separar_letras(t: &Vec<char>) -> (r: Vec<char>)
    ensures
        r@ == separar_letras_desde(t@, 0),
{
    let largo = t.len();
    let mut r: Vec<char> = Vec::new();
    let mut i: usize = 0;
    while i < largo
        invariant
            largo == t@.len(),
            i <= t@.len(),
            r@ + separar_letras_desde(t@, i as int) == separar_letras_desde(t@, 0),
        decreases t@.len() - i,
    {
        let ghost antes = r@;
        let c = t[i];
        if largo - i > 4 && c == ' ' && (('a' <= t[i + 1] && t[i + 1] <= 'd') || ('A' <= t[i + 1]
            && t[i + 1] <= 'D')) && t[i + 2] == '.' && t[i + 3] == '-' && espacio(t[i + 4]) {
            r.push('\n');
            r.push(t[i + 1]);
            r.push('.');
            r.push('-');
            r.push(' ');
            assert(antes + (seq!['\n', t@[i + 1], '.', '-', ' '] + separar_letras_desde(t@, i + 5))
                =~= r@ + separar_letras_desde(t@, i + 5));
            i += 5;
        } else {
            r.push(c);
            assert(antes + (seq![c] + separar_letras_desde(t@, i + 1)) =~= r@
                + separar_letras_desde(t@, i + 1));
            i += 1;
        }
    }
    assert(r@ + separar_letras_desde(t@, i as int) =~= r@);
    r
}

/// Splits run-together questions and options (`separar_si_concatenado_spec`).
pub fn separar_si_concatenado(t: Vec<char>) -> (r: Vec<char>)
    ensures
        r@ == separar_si_concatenado_spec(t@),
{
    if hay_linea_larga_exec(&t) {
        let numeros = separar_numeros(&t);
        separar_letras(&numeros)
    } else {
        t
    }
}

/// Cleans the characters of a document (`limpiar_texto_spec`).
pub fn limpiar_texto(t: &Vec<char>) -> (r: Vec<char>)
    ensures
        r@ == limpiar_texto_spec(t@),
{
    let crlf = vec!['\r', '\n'];
    let cr = vec!['\r'];
    let lf = vec!['\n'];
    let paso1 = reemplazar_exec(t, &crlf, &lf);
    assert(crlf@ =~= seq!['\r', '\n'] && cr@ =~= seq!['\r'] && lf@ =~= seq!['\n']);
    let paso2 = reemplazar_exec(&paso1, &cr, &lf);
    let paso3 = quitar_decoracion(&paso2);
    let paso4 = compactar_saltos(&paso3, 4);
    separar_si_concatenado(paso4)
}

pub proof fn lema_reemplazar_no_alarga(s: Seq<char>, p: Seq<char>, r: Seq<char>, i: int)
    requires
        0 <= i <= s.len(),
        r.len() <= p.len(),
    ensures
        crate::texto::reemplazar_desde(s, p, r, i).len() <= s.len() - i,
    decreases s.len() - i,
{
    if i < s.len() {
        if p.len() > 0 && coincide_en(s, i, p) {
            lema_reemplazar_no_alarga(s, p, r, i + p.len());
        } else {
            lema_reemplazar_no_alarga(s, p, r, i + 1);
        }
    }
}

pub proof fn lema_decoracion_no_alarga(s: Seq<char>, i: int)
    requires
        0 <= i <= s.len(),
    ensures
        quitar_decoracion_desde(s, i).len() <= s.len() - i,
    decreases s.len() - i,
{
    if i < s.len() {
        lema_decoracion_en(s, i);
        match decoracion_en(s, i) {
            Some(e) => lema_decoracion_no_alarga(s, e),
            None => lema_decoracion_no_alarga(s, i + 1),
        }
    }
}

pub proof fn lema_compactar_no_alarga(s: Seq<char>, i: int)
    requires
        0 <= i <= s.len(),
    ensures
        compactar_saltos_desde(s, i, 4).len() <= s.len() - i,
    decreases s.len() - i,
{
    if i < s.len() {
        lema_racha_acotada(s, i, Clase::Salto);
        let n = racha(s, i, Clase::Salto);
        if n >= 4 && n > 0 {
            lema_compactar_no_alarga(s, i + n);
        } else {
            lema_compactar_no_alarga(s, i + 1);
        }
    }
}

pub proof fn lema_separar_numeros_largo(s: Seq<char>, i: int)
    requires
        0 <= i <= s.len(),
    ensures
        separar_numeros_desde(s, i).len() == s.len() - i,
    decreases s.len() - i,
{
    if i < s.len() {
        match numero_pegado_en(s, i) {
            Some(d) => lema_separar_numeros_largo(s, i + 4 + d),
            None => lema_separar_numeros_largo(s, i + 1),
        }
    }
}

pub proof fn lema_separar_letras_largo(s: Seq<char>, i: int)
    requires
        0 <= i <= s.len(),
    ensures
        separar_letras_desde(s, i).len() == s.len() - i,
    decreases s.len() - i,
{
    if i < s.len() {
        if letra_pegada_en(s, i) {
            lema_separar_letras_largo(s, i + 5);
        } else {
            lema_separar_letras_largo(s, i + 1);
        }
    }
}

/// Cleaning never makes a text longer.
pub proof fn lema_limpiar_no_alarga(s: Seq<char>)
    ensures
        limpiar_texto_spec(s).len() <= s.len(),
{
    lema_reemplazar_no_alarga(s, seq!['\r', '\n'], seq!['\n'], 0);
    let a = reemplazar(s, seq!['\r', '\n'], seq!['\n']);
    lema_reemplazar_no_alarga(a, seq!['\r'], seq!['\n'], 0);
    let b = reemplazar(a, seq!['\r'], seq!['\n']);
    lema_decoracion_no_alarga(b, 0);
    let c = quitar_decoracion_desde(b, 0);
    lema_compactar_no_alarga(c, 0);
    let d = compactar_saltos_desde(c, 0, 4);
    lema_separar_numeros_largo(d, 0);
    lema_separar_letras_largo(separar_numeros_desde(d, 0), 0);
}

/// `s` holds no carriage return.
pub open spec fn sin_retornos(s: Seq<char>) -> bool {
    forall|k: int| 0 <= k < s.len() ==> #[trigger] s[k] != '\r'
}

proof fn lema_concat_sin_retornos(a: Seq<char>, b: Seq<char>)
    requires
        sin_retornos(a),
        sin_retornos(b),
    ensures
        sin_retornos(a + b),
{
    assert forall|k: int| 0 <= k < (a + b).len() implies #[trigger] (a + b)[k] != '\r' by {
        if k < a.len() {
            assert((a + b)[k] == a[k]);
        } else {
            assert((a + b)[k] == b[k - a.len()]);
        }
    }
}

proof fn lema_reemplazar_retornos(s: Seq<char>, i: int)
    requires
        0 <= i,
    ensures
        sin_retornos(crate::texto::reemplazar_desde(s, seq!['\r'], seq!['\n'], i)),
    decreases s.len() - i,
{
    if i < s.len() {
        if coincide_en(s, i, seq!['\r']) {
            lema_reemplazar_retornos(s, i + 1);
            lema_concat_sin_retornos(seq!['\n'], crate::texto::reemplazar_desde(s, seq!['\r'], seq!['\n'], i + 1));
        } else {
            assert(s.subrange(i, i + 1) =~= seq![s[i]]);
            lema_reemplazar_retornos(s, i + 1);
            lema_concat_sin_retornos(seq![s[i]], crate::texto::reemplazar_desde(s, seq!['\r'], seq!['\n'], i + 1));
        }
    }
}

proof fn lema_decoracion_sin_retornos(s: Seq<char>, i: int)
    requires
        0 <= i,
        sin_retornos(s),
    ensures
        sin_retornos(quitar_decoracion_desde(s, i)),
    decreases s.len() - i,
{
    if i < s.len() {
        lema_decoracion_en(s, i);
        match decoracion_en(s, i) {
            Some(e) => lema_decoracion_sin_retornos(s, e),
            None => {
                lema_decoracion_sin_retornos(s, i + 1);
                lema_concat_sin_retornos(seq![s[i]], quitar_decoracion_desde(s, i + 1));
            },
        }
    }
}

proof fn lema_compactar_sin_retornos(s: Seq<char>, i: int, m: nat)
    requires
        0 <= i,
        sin_retornos(s),
    ensures
        sin_retornos(compactar_saltos_desde(s, i, m)),
    decreases s.len() - i,
{
    if i < s.len() {
        lema_racha_acotada(s, i, Clase::Salto);
        let n = racha(s, i, Clase::Salto);
        if n >= m && n > 0 {
            lema_compactar_sin_retornos(s, i + n, m);
            lema_concat_sin_retornos(seq!['\n', '\n'], compactar_saltos_desde(s, i + n, m));
        } else {
            lema_compactar_sin_retornos(s, i + 1, m);
            lema_concat_sin_retornos(seq![s[i]], compactar_saltos_desde(s, i + 1, m));
        }
    }
}

proof fn lema_separar_sin_retornos(s: Seq<char>, i: int)
    requires
        0 <= i,
        sin_retornos(s),
    ensures
        sin_retornos(separar_numeros_desde(s, i)),
        sin_retornos(separar_letras_desde(s, i)),
    decreases s.len() - i,
{
    if i < s.len() {
        match numero_pegado_en(s, i) {
            Some(d) => {
                lema_separar_sin_retornos(s, i + 4 + d);
                let digitos = s.subrange(i + 1, i + 1 + d);
                let cabeza = seq!['\n'] + digitos + seq!['.', '-', ' '];
                assert(sin_retornos(cabeza)) by {
                    assert forall|k: int| 0 <= k < cabeza.len() implies #[trigger] cabeza[k] != '\r' by {
                        if 1 <= k < 1 + d {
                            assert(cabeza[k] == s[i + k]);
                        }
                    }
                }
                lema_concat_sin_retornos(cabeza, separar_numeros_desde(s, i + 4 + d));
            },
            None => {
                lema_separar_sin_retornos(s, i + 1);
                lema_concat_sin_retornos(seq![s[i]], separar_numeros_desde(s, i + 1));
            },
        }
        if letra_pegada_en(s, i) {
            lema_separar_sin_retornos(s, i + 5);
            lema_concat_sin_retornos(seq!['\n', s[i + 1], '.', '-', ' '], separar_letras_desde(s, i + 5));
        } else {
            lema_separar_sin_retornos(s, i + 1);
            lema_concat_sin_retornos(seq![s[i]], separar_letras_desde(s, i + 1));
        }
    }
}

/// Cleaning leaves no carriage return: every line ending becomes `\n`.
pub proof fn lema_limpiar_sin_retornos(s: Seq<char>)
    ensures
        sin_retornos(limpiar_texto_spec(s)),
{
    let a = reemplazar(s, seq!['\r', '\n'], seq!['\n']);
    lema_reemplazar_retornos(a, 0);
    let b = reemplazar(a, seq!['\r'], seq!['\n']);
    lema_decoracion_sin_retornos(b, 0);
    let c = quitar_decoracion_desde(b, 0);
    lema_compactar_sin_retornos(c, 0, 4);
    let d = compactar_saltos_desde(c, 0, 4);
    lema_separar_sin_retornos(d, 0);
    lema_separar_sin_retornos(separar_numeros_desde(d, 0), 0);
}

proof fn lema_reemplazar_desplazado(a: Seq<char>, b: Seq<char>, p: Seq<char>, r: Seq<char>, j: int)
    requires
        0 <= j,
        p.len() > 0,
    ensures
        reemplazar_desde(a + b, p, r, a.len() + j) == reemplazar_desde(b, p, r, j),
    decreases b.len() - j,
{
    if j < b.len() {
        let i = a.len() + j;
        assert((a + b)[i] == b[j]);
        if j + p.len() <= b.len() {
            assert((a + b).subrange(i, i + p.len()) =~= b.subrange(j, j + p.len()));
            lema_reemplazar_desplazado(a, b, p, r, j + p.len());
        }
        lema_reemplazar_desplazado(a, b, p, r, j + 1);
    }
}

/// Replacing in `a + b` is replacing in `a` and in `b`, for a pattern of one
/// character or of two whose first does not end `a`.
proof fn lema_reemplazar_concat(a: Seq<char>, b: Seq<char>, p: Seq<char>, r: Seq<char>, i: int)
    requires
        0 <= i <= a.len(),
        1 <= p.len() <= 2,
        p.len() == 2 && a.len() > 0 ==> a.last() != p[0],
    ensures
        reemplazar_desde(a + b, p, r, i) == reemplazar_desde(a, p, r, i) + reemplazar_desde(b, p, r, 0),
    decreases a.len() - i,
{
    if i == a.len() {
        lema_reemplazar_desplazado(a, b, p, r, 0);
        assert(reemplazar_desde(a, p, r, i) =~= Seq::<char>::empty());
        assert(reemplazar_desde(a + b, p, r, i) =~= reemplazar_desde(a, p, r, i) + reemplazar_desde(b, p, r, 0));
    } else {
        assert((a + b)[i] == a[i]);
        if i + p.len() <= a.len() {
            assert((a + b).subrange(i, i + p.len()) =~= a.subrange(i, i + p.len()));
            lema_reemplazar_concat(a, b, p, r, i + p.len());
        } else {
            assert(!coincide_en(a, i, p));
            if coincide_en(a + b, i, p) {
                assert((a + b).subrange(i, i + p.len())[0] == (a + b)[i]);
            }
        }
        lema_reemplazar_concat(a, b, p, r, i + 1);
        if coincide_en(a + b, i, p) {
            assert(reemplazar_desde(a + b, p, r, i) =~= reemplazar_desde(a, p, r, i) + reemplazar_desde(b, p, r, 0));
        } else {
            assert(reemplazar_desde(a + b, p, r, i) =~= reemplazar_desde(a, p, r, i) + reemplazar_desde(b, p, r, 0));
        }
    }
}

proof fn lema_reemplazar_uno(c: char, p: Seq<char>, r: Seq<char>)
    requires
        1 <= p.len() <= 2,
    ensures
        p.len() == 1 ==> reemplazar(seq![c], p, r) == if c == p[0] { r } else { seq![c] },
        p.len() == 2 ==> reemplazar(seq![c], p, r) == seq![c],
{
    let s = seq![c];
    assert(reemplazar_desde(s, p, r, 1) =~= Seq::<char>::empty());
    if p.len() == 1 {
        if c == p[0] {
            assert(s.subrange(0, 1) =~= p);
            assert(r + Seq::<char>::empty() =~= r);
        } else {
            assert(s.subrange(0, 1)[0] == c);
            assert(seq![c] + Seq::<char>::empty() =~= seq![c]);
        }
    } else {
        assert(seq![c] + Seq::<char>::empty() =~= seq![c]);
    }
}

proof fn lema_reemplazar_nada(s: Seq<char>, p: Seq<char>, r: Seq<char>, i: int)
    requires
        0 <= i <= s.len(),
        p.len() > 0,
        forall|k: int| i <= k < s.len() ==> !coincide_en(s, k, p),
    ensures
        reemplazar_desde(s, p, r, i) == s.skip(i),
    decreases s.len() - i,
{
    if i < s.len() {
        lema_reemplazar_nada(s, p, r, i + 1);
        assert(seq![s[i]] + s.skip(i + 1) =~= s.skip(i));
    } else {
        assert(s.skip(i) =~= Seq::<char>::empty());
    }
}

/// The line endings of a text without carriage returns written `\r\n`:
/// normalising gives the text back.
proof fn lema_crlf_vuelve(t: Seq<char>)
    requires
        sin_retornos(t),
    ensures
        reemplazar(reemplazar(t, seq!['\n'], seq!['\r', '\n']), seq!['\r', '\n'], seq!['\n']) == t,
        t.len() > 0 ==> reemplazar(t, seq!['\n'], seq!['\r', '\n']).len() > 0 && reemplazar(
            t,
            seq!['\n'],
            seq!['\r', '\n'],
        ).last() != '\r',
    decreases t.len(),
{
    let lf = seq!['\n'];
    let crlf = seq!['\r', '\n'];
    if t.len() == 0 {
        assert(reemplazar(t, lf, crlf) =~= Seq::<char>::empty());
        assert(reemplazar(Seq::<char>::empty(), crlf, lf) =~= Seq::<char>::empty());
    } else {
        let u = t.drop_last();
        let c = t.last();
        assert(sin_retornos(u)) by {
            assert forall|k: int| 0 <= k < u.len() implies #[trigger] u[k] != '\r' by {
                assert(u[k] == t[k]);
            }
        }
        assert(t[t.len() - 1] != '\r');
        lema_crlf_vuelve(u);
        assert(u + seq![c] =~= t);
        lema_reemplazar_concat(u, seq![c], lf, crlf, 0);
        lema_reemplazar_uno(c, lf, crlf);
        let fu = reemplazar(u, lf, crlf);
        let g = reemplazar(seq![c], lf, crlf);
        assert(reemplazar(t, lf, crlf) == fu + g);
        assert((fu + g).last() == g.last());
        lema_reemplazar_concat(fu, g, crlf, lf, 0);
        if c == '\n' {
            assert(g =~= crlf);
            assert(reemplazar_desde(g, crlf, lf, 2) =~= Seq::<char>::empty());
            assert(g.subrange(0, 2) =~= crlf);
            assert(reemplazar(g, crlf, lf) =~= lf);
        } else {
            lema_reemplazar_uno(c, crlf, lf);
        }
        assert(u + seq![c] =~= t);
    }
}

/// The line endings of a text without carriage returns written `\r`:
/// replacing `\n` by `\r` leaves no `\n`, and normalising gives the text back.
proof fn lema_cr_vuelve(t: Seq<char>)
    requires
        sin_retornos(t),
    ensures
        reemplazar(reemplazar(t, seq!['\n'], seq!['\r']), seq!['\r'], seq!['\n']) == t,
        forall|k: int| 0 <= k < reemplazar(t, seq!['\n'], seq!['\r']).len() ==> #[trigger] reemplazar(t, seq!['\n'], seq!['\r'])[k] != '\n',
    decreases t.len(),
{
    let lf = seq!['\n'];
    let cr = seq!['\r'];
    if t.len() == 0 {
        assert(reemplazar(t, lf, cr) =~= Seq::<char>::empty());
        assert(reemplazar(Seq::<char>::empty(), cr, lf) =~= Seq::<char>::empty());
    } else {
        let u = t.drop_last();
        let c = t.last();
        assert(sin_retornos(u)) by {
            assert forall|k: int| 0 <= k < u.len() implies #[trigger] u[k] != '\r' by {
                assert(u[k] == t[k]);
            }
        }
        assert(t[t.len() - 1] != '\r');
        lema_cr_vuelve(u);
        assert(u + seq![c] =~= t);
        lema_reemplazar_concat(u, seq![c], lf, cr, 0);
        lema_reemplazar_uno(c, lf, cr);
        let fu = reemplazar(u, lf, cr);
        let g = reemplazar(seq![c], lf, cr);
        assert(reemplazar(t, lf, cr) == fu + g);
        assert forall|k: int| 0 <= k < (fu + g).len() implies #[trigger] (fu + g)[k] != '\n' by {
            if k >= fu.len() {
                assert((fu + g)[k] == g[k - fu.len()]);
            } else {
                assert((fu + g)[k] == fu[k]);
            }
        }
        lema_reemplazar_concat(fu, g, cr, lf, 0);
        lema_reemplazar_uno(if c == '\n' { '\r' } else { c }, cr, lf);
        if c == '\n' {
            assert(g =~= seq!['\r']);
        } else {
            assert(g =~= seq![c]);
        }
    }
}

proof fn lema_sin_retornos_sin_coincidencia(s: Seq<char>, p: Seq<char>)
    requires
        sin_retornos(s),
        p.len() > 0,
        p[0] == '\r',
    ensures
        forall|k: int| 0 <= k < s.len() ==> !coincide_en(s, k, p),
{
    assert forall|k: int| 0 <= k < s.len() implies !coincide_en(s, k, p) by {
        if coincide_en(s, k, p) {
            assert(s.subrange(k, k + p.len())[0] == s[k]);
        }
    }
}

/// Normalising line endings leaves a text that has no carriage return as it is,
/// and gives it back from the same text written with `\r\n` or `\r` endings.
pub proof fn lema_normalizar_finales(t: Seq<char>)
    requires
        sin_retornos(t),
    ensures
        normalizar_finales(reemplazar(t, seq!['\n'], seq!['\r', '\n'])) == t,
        normalizar_finales(reemplazar(t, seq!['\n'], seq!['\r'])) == t,
        normalizar_finales(t) == t,
{
    let lf = seq!['\n'];
    let cr = seq!['\r'];
    let crlf = seq!['\r', '\n'];
    lema_sin_retornos_sin_coincidencia(t, crlf);
    lema_sin_retornos_sin_coincidencia(t, cr);
    lema_reemplazar_nada(t, crlf, lf, 0);
    lema_reemplazar_nada(t, cr, lf, 0);
    assert(t.skip(0) =~= t);
    lema_crlf_vuelve(t);
    lema_cr_vuelve(t);
    let a = reemplazar(t, lf, cr);
    assert forall|k: int| 0 <= k < a.len() implies !coincide_en(a, k, crlf) by {
        if coincide_en(a, k, crlf) {
            assert(a.subrange(k, k + 2)[1] == a[k + 1]);
        }
    }
    lema_reemplazar_nada(a, crlf, lf, 0);
    assert(a.skip(0) =~= a);
}

/// Every limpieza of a text that has no carriage return is the same whether its
/// lines end in `\n`, `\r\n` or `\r`.
pub proof fn lema_limpiar_finales(t: Seq<char>)
    requires
        sin_retornos(t),
    ensures
        limpiar_texto_spec(reemplazar(t, seq!['\n'], seq!['\r', '\n'])) == limpiar_texto_spec(t),
        limpiar_texto_spec(reemplazar(t, seq!['\n'], seq!['\r'])) == limpiar_texto_spec(t),
{
    lema_normalizar_finales(t);
}

/// Three line breaks in a row start at `k` in `t`.
pub open spec fn tres_saltos_en(t: Seq<char>, k: int) -> bool {
    0 <= k && k + 2 < t.len() && t[k] == '\n' && t[k + 1] == '\n' && t[k + 2] == '\n'
}

/// `t` never holds three line breaks in a row.
pub open spec fn sin_tres_saltos(t: Seq<char>) -> bool {
    forall|k: int| !#[trigger] tres_saltos_en(t, k)
}

proof fn lema_compactar_tres(s: Seq<char>, i: int)
    requires
        0 <= i,
    ensures
        sin_tres_saltos(compactar_saltos_desde(s, i, 3)),
        racha(compactar_saltos_desde(s, i, 3), 0, Clase::Salto) <= 2,
        racha(compactar_saltos_desde(s, i, 3), 0, Clase::Salto) <= racha(s, i, Clase::Salto),
    decreases s.len() - i,
{
    let c = compactar_saltos_desde(s, i, 3);
    if i >= s.len() {
        assert(c =~= Seq::<char>::empty());
        assert(racha(c, 0, Clase::Salto) == 0);
    } else {
        lema_racha_acotada(s, i, Clase::Salto);
        let n = racha(s, i, Clase::Salto);
        if n >= 3 {
            let resto = compactar_saltos_desde(s, i + n, 3);
            lema_compactar_tres(s, i + n);
            assert(racha(s, i + n, Clase::Salto) == 0);
            assert(c =~= seq!['\n'] + (seq!['\n'] + resto));
            lema_racha_tras_uno('\n', resto, Clase::Salto);
            lema_racha_tras_uno('\n', seq!['\n'] + resto, Clase::Salto);
            assert forall|k: int| !#[trigger] tres_saltos_en(c, k) by {
                if tres_saltos_en(c, k) {
                    if k >= 2 {
                        assert(c[k] == resto[k - 2] && c[k + 1] == resto[k - 1] && c[k + 2] == resto[k]);
                        assert(tres_saltos_en(resto, k - 2));
                    } else {
                        assert(resto[0] == '\n');
                        assert(racha(resto, 0, Clase::Salto) == 1 + racha(resto, 1, Clase::Salto));
                    }
                }
            }
        } else {
            let resto = compactar_saltos_desde(s, i + 1, 3);
            lema_compactar_tres(s, i + 1);
            assert(c =~= seq![s[i]] + resto);
            lema_racha_tras_uno(s[i], resto, Clase::Salto);
            if s[i] == '\n' {
                assert(racha(s, i, Clase::Salto) == 1 + racha(s, i + 1, Clase::Salto));
            }
            assert forall|k: int| !#[trigger] tres_saltos_en(c, k) by {
                if tres_saltos_en(c, k) && k >= 1 {
                    assert(c[k] == resto[k - 1] && c[k + 1] == resto[k] && c[k + 2] == resto[k + 1]);
                    assert(tres_saltos_en(resto, k - 1));
                } else if tres_saltos_en(c, k) {
                    assert(resto[0] == '\n' && resto[1] == '\n');
                    assert(racha(resto, 0, Clase::Salto) == 1 + racha(resto, 1, Clase::Salto));
                    assert(racha(resto, 1, Clase::Salto) == 1 + racha(resto, 2, Clase::Salto));
                }
            }
        }
    }
}

/// Runs of three or more line breaks made two and the whole trimmed: the text
/// is trimmed and never holds three line breaks in a row.
pub proof fn lema_compactar_y_recortar(s: Seq<char>)
    ensures
        recortar(recortar(compactar_saltos_desde(s, 0, 3))) == recortar(compactar_saltos_desde(s, 0, 3)),
        sin_tres_saltos(recortar(compactar_saltos_desde(s, 0, 3))),
{
    let c = compactar_saltos_desde(s, 0, 3);
    lema_compactar_tres(s, 0);
    lema_recortar_idempotente(c);
    let t = recortar(c);
    if t.len() > 0 {
        let a = racha(c, 0, Clase::Espacio) as int;
        assert forall|k: int| !#[trigger] tres_saltos_en(t, k) by {
            if tres_saltos_en(t, k) {
                assert(t[k] == c[a + k] && t[k + 1] == c[a + k + 1] && t[k + 2] == c[a + k + 2]);
                assert(tres_saltos_en(c, a + k));
            }
        }
    }
}

} // verus!
