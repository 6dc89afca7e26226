//! The answer key at the end of a document: the heading that opens it, the
//! numbered entries `1. B` in it, or else one letter per line.
use vstd::prelude::*;
use std::collections::HashMap;
use crate::texto::{
    racha, lema_racha_acotada, lema_racha_hasta, contar_racha, Clase, es_espacio, espacio, es_letra_opcion,
    coincide_sin_caso, coincide_sin_caso_exec, es_de_palabra, de_palabra, valor_decimal,
    valor_decimal_exec, mayuscula_opcion, mayuscula_opcion_exec, es_digito_ascii, cadena,
    numero_leido, todos_ascii, es_digito,
};
use crate::limpieza::{es_inicio_linea, ultimo_fin_linea, ultimo_fin_linea_exec, lema_ultimo_fin_linea};

verus! {

broadcast use vstd::std_specs::hash::group_hash_axioms;

pub open spec fn palabra_solucione() -> Seq<char> {
    seq!['s', 'o', 'l', 'u', 'c', 'i', 'o', 'n', 'e']
}

pub open spec fn palabra_respuesta() -> Seq<char> {
    seq!['r', 'e', 's', 'p', 'u', 'e', 's', 't', 'a']
}

pub open spec fn palabra_correcta() -> Seq<char> {
    seq!['c', 'o', 'r', 'r', 'e', 'c', 't', 'a']
}

pub open spec fn palabra_clave() -> Seq<char> {
    seq!['c', 'l', 'a', 'v', 'e']
}

pub open spec fn palabra_de() -> Seq<char> {
    seq!['d', 'e']
}

pub open spec fn palabra_contestacione() -> Seq<char> {
    seq!['c', 'o', 'n', 't', 'e', 's', 't', 'a', 'c', 'i', 'o', 'n', 'e']
}

pub open spec fn palabra_answer() -> Seq<char> {
    seq!['a', 'n', 's', 'w', 'e', 'r']
}

/// `s?` at `e`, ignoring case: the ends it may give, the longer first.
pub open spec fn s_opcional(s: Seq<char>, e: int) -> Seq<int> {
    if coincide_sin_caso(s, e, seq!['s']) {
        seq![e + 1, e]
    } else {
        seq![e]
    }
}

/// `(\s*correctas?)?` at `b`: the ends it may give, in the order tried.
pub open spec fn grupo_correcta(s: Seq<char>, b: int) -> Seq<int> {
    let w = racha(s, b, Clase::Espacio);
    if coincide_sin_caso(s, b + w, palabra_correcta()) {
        s_opcional(s, b + w + 8) + seq![b]
    } else {
        seq![b]
    }
}

/// `respuestas?(\s*correctas?)?` after `respuesta` at `e`.
pub open spec fn tras_respuesta(s: Seq<char>, e: int) -> Seq<int> {
    if coincide_sin_caso(s, e, seq!['s']) {
        grupo_correcta(s, e + 1) + grupo_correcta(s, e)
    } else {
        grupo_correcta(s, e)
    }
}

/// `clave(\s*de\s*respuestas?)?` at `i`: the heading `CLAVE`, alone or as
/// `CLAVE DE RESPUESTAS`.
pub open spec fn alternativa_clave(s: Seq<char>, i: int) -> Seq<int> {
    let a = i + 5;
    let w1 = racha(s, a, Clase::Espacio);
    let b = a + w1 + 2;
    let w2 = racha(s, b, Clase::Espacio);
    if coincide_sin_caso(s, i, palabra_clave()) {
        if coincide_sin_caso(s, a + w1, palabra_de()) && coincide_sin_caso(
            s,
            b + w2,
            palabra_respuesta(),
        ) {
            s_opcional(s, b + w2 + 9) + seq![a]
        } else {
            seq![a]
        }
    } else {
        Seq::empty()
    }
}

/// Where the heading word of an answer key that starts at `i` may end, in the
/// order the alternatives
/// `soluciones?|respuestas?(\s*correctas?)?|clave(\s*de\s*respuestas?)?|contestaciones?|answers?`
/// are tried, case ignored.
pub open spec fn finales_cabecera(s: Seq<char>, i: int) -> Seq<int> {
    let a1 = if coincide_sin_caso(s, i, palabra_solucione()) {
        s_opcional(s, i + 9)
    } else {
        Seq::empty()
    };
    let a2 = if coincide_sin_caso(s, i, palabra_respuesta()) {
        tras_respuesta(s, i + 9)
    } else {
        Seq::empty()
    };
    let a4 = if coincide_sin_caso(s, i, palabra_contestacione()) {
        s_opcional(s, i + 13)
    } else {
        Seq::empty()
    };
    let a5 = if coincide_sin_caso(s, i, palabra_answer()) {
        s_opcional(s, i + 6)
    } else {
        Seq::empty()
    };
    a1 + a2 + alternativa_clave(s, i) + a4 + a5
}

/// `[\s:.]*$` at `e`: where the heading's line ends, if it can.
pub open spec fn cola_cabecera(s: Seq<char>, e: int) -> Option<int> {
    match ultimo_fin_linea(s, e, racha(s, e, Clase::ColaCabecera) as int) {
        Some(d) => Some(e + d),
        None => None,
    }
}

/// The end of the first candidate that the rest of the heading's line accepts.
pub open spec fn primer_cierre(s: Seq<char>, finales: Seq<int>) -> Option<int>
    decreases finales.len(),
{
    if finales.len() == 0 {
        None
    } else {
        match cola_cabecera(s, finales[0]) {
            Some(e) => Some(e),
            None => primer_cierre(s, finales.drop_first()),
        }
    }
}

/// The end of the answer-key heading that starts at `i`, if one does.
pub open spec fn cabecera_en(s: Seq<char>, i: int) -> Option<int> {
    if es_inicio_linea(s, i) {
        primer_cierre(s, finales_cabecera(s, i))
    } else {
        None
    }
}

/// The first answer-key heading at or after `i`: where it starts and ends.
pub open spec fn cabecera_desde(s: Seq<char>, i: int) -> Option<(int, int)>
    decreases s.len() - i,
{
    if i < 0 || i >= s.len() {
        None
    } else {
        match cabecera_en(s, i) {
            Some(e) => Some((i, e)),
            None => cabecera_desde(s, i + 1),
        }
    }
}

/// `(\d{1,3})[\.\)\-:\s]+([A-Da-d])\b` at `i`: its end, the number its digits
/// parse to (none where one of them is not an ASCII digit) and its letter.
pub open spec fn entrada_en(s: Seq<char>, i: int) -> Option<(int, Option<u32>, char)> {
    let r = racha(s, i, Clase::Digito);
    let n = racha(s, i + r, Clase::SeparadorClave);
    let j = i + r + n;
    if 0 <= i && 1 <= r <= 3 && n >= 1 && j < s.len() && es_letra_opcion(s[j]) && (j + 1
        == s.len() || !es_de_palabra(s[j + 1])) {
        Some((j + 1, numero_leido(s.subrange(i, i + r)), mayuscula_opcion(s[j])))
    } else {
        None
    }
}

pub proof fn lema_entrada_en(s: Seq<char>, i: int)
    requires
        0 <= i <= s.len(),
    ensures
        entrada_en(s, i) matches Some((e, n, l)) ==> i < e <= s.len() && ('A' <= l <= 'D') && (
        n matches Some(v) ==> v < 1000),
{
    let r = racha(s, i, Clase::Digito);
    lema_racha_acotada(s, i, Clase::Digito);
    if 1 <= r <= 3 {
        lema_racha_acotada(s, i + r, Clase::SeparadorClave);
        if crate::texto::digitos_ascii(s.subrange(i, i + r)) {
            lema_valor_pequeno(s.subrange(i, i + r));
        }
    }
}

/// Three digits at most make a number under a thousand.
pub proof fn lema_valor_pequeno(d: Seq<char>)
    requires
        d.len() <= 3,
        forall|k: int| 0 <= k < d.len() ==> es_digito_ascii(#[trigger] d[k]),
    ensures
        valor_decimal(d) < 1000,
        d.len() <= 2 ==> valor_decimal(d) < 100,
        d.len() <= 1 ==> valor_decimal(d) < 10,
    decreases d.len(),
{
    if d.len() > 0 {
        let p = d.drop_last();
        assert(forall|k: int| 0 <= k < p.len() ==> es_digito_ascii(#[trigger] p[k]) ) by {
            assert forall|k: int| 0 <= k < p.len() implies es_digito_ascii(#[trigger] p[k]) by {
                assert(p[k] == d[k]);
            }
        }
        lema_valor_pequeno(p);
        assert(es_digito_ascii(d[d.len() - 1]));
    }
}

/// The numbered entries of a key from `i` on, found from left to right; a
/// match whose number does not parse gives no entry.
pub open spec fn entradas_desde(s: Seq<char>, i: int) -> Seq<(u32, char)>
    decreases s.len() - i,
{
    if i < 0 || i >= s.len() {
        Seq::empty()
    } else {
        proof {
            lema_entrada_en(s, i);
        }
        match entrada_en(s, i) {
            Some((e, Some(n), l)) => seq![(n, l)] + entradas_desde(s, e),
            Some((e, None, _)) => entradas_desde(s, e),
            None => entradas_desde(s, i + 1),
        }
    }
}

/// The entries inserted in order into a map: a later entry for a number wins.
pub open spec fn mapa_entradas(es: Seq<(u32, char)>) -> Map<u32, char>
    decreases es.len(),
{
    if es.len() == 0 {
        Map::empty()
    } else {
        mapa_entradas(es.drop_last()).insert(es.last().0, es.last().1)
    }
}

/// `(?m)^\s*([A-Da-d])\s*$` at `i`: the end and letter of a line holding a
/// letter alone.
pub open spec fn letra_sola_en(s: Seq<char>, i: int) -> Option<(int, char)> {
    let w = racha(s, i, Clase::Espacio);
    let j = i + w;
    if es_inicio_linea(s, i) && 0 <= i && j < s.len() && es_letra_opcion(s[j]) {
        match ultimo_fin_linea(s, j + 1, racha(s, j + 1, Clase::Espacio) as int) {
            Some(d) => Some((j + 1 + d, mayuscula_opcion(s[j]))),
            None => None,
        }
    } else {
        None
    }
}

pub proof fn lema_letra_sola_en(s: Seq<char>, i: int)
    requires
        0 <= i <= s.len(),
    ensures
        letra_sola_en(s, i) matches Some((e, l)) ==> i < e <= s.len() && ('A' <= l <= 'D'),
{
    let w = racha(s, i, Clase::Espacio);
    lema_racha_acotada(s, i, Clase::Espacio);
    let j = i + w;
    if j < s.len() {
        lema_racha_acotada(s, j + 1, Clase::Espacio);
        lema_ultimo_fin_linea(s, j + 1, racha(s, j + 1, Clase::Espacio) as int);
    }
}

/// The letters of the lines that hold one alone, from `i` on.
pub open spec fn letras_solas_desde(s: Seq<char>, i: int) -> Seq<char>
    decreases s.len() - i,
{
    if i < 0 || i >= s.len() {
        Seq::empty()
    } else {
        proof {
            lema_letra_sola_en(s, i);
        }
        match letra_sola_en(s, i) {
            Some((e, l)) => seq![l] + letras_solas_desde(s, e),
            None => letras_solas_desde(s, i + 1),
        }
    }
}

/// The k-th letter answers question k.
pub open spec fn mapa_posicional(ls: Seq<char>) -> Map<u32, char> {
    Map::new(|k: u32| 1 <= k <= ls.len(), |k: u32| ls[k - 1])
}

/// The key read from the text after its heading: the numbered entries, or,
/// where there is none, the letters alone on their lines, in order.
pub open spec fn clave_de(b: Seq<char>) -> Map<u32, char> {
    let es = entradas_desde(b, 0);
    if es.len() == 0 {
        mapa_posicional(letras_solas_desde(b, 0))
    } else {
        mapa_entradas(es)
    }
}

/// The body of the document, before the heading of its answer key, and the key;
/// the whole text and no key where there is no heading.
pub open spec fn separar_clave_spec(s: Seq<char>) -> (Seq<char>, Map<u32, char>) {
    match cabecera_desde(s, 0) {
        Some((a, e)) => (s.take(a), clave_de(s.skip(e))),
        None => (s, Map::empty()),
    }
}

/// The key read after the heading of `s` counts fewer than `u32::MAX` letters
/// alone on their lines, so the number given to each of them fits a `u32`.
pub open spec fn clave_posicional_cabe(s: Seq<char>) -> bool {
    match cabecera_desde(s, 0) {
        Some((a, e)) => letras_solas_desde(s.skip(e), 0).len() < u32::MAX,
        None => true,
    }
}

proof fn lema_letras_solas_cota(s: Seq<char>, i: int)
    requires
        0 <= i <= s.len(),
    ensures
        letras_solas_desde(s, i).len() <= s.len() - i,
    decreases s.len() - i,
{
    if i < s.len() {
        lema_letra_sola_en(s, i);
        match letra_sola_en(s, i) {
            Some((e, l)) => lema_letras_solas_cota(s, e),
            None => lema_letras_solas_cota(s, i + 1),
        }
    }
}

/// A text shorter than `u32::MAX` characters has room for its positional key.
pub proof fn lema_clave_cabe_si_corto(s: Seq<char>)
    requires
        s.len() < u32::MAX,
    ensures
        clave_posicional_cabe(s),
{
    match cabecera_desde(s, 0) {
        Some((a, e)) => {
            lema_cabecera_desde(s, 0);
            lema_letras_solas_cota(s.skip(e), 0);
        },
        None => {},
    }
}

proof fn lema_primer_cierre(s: Seq<char>, fs: Seq<int>)
    ensures
        primer_cierre(s, fs) matches Some(e) ==> 0 <= e <= s.len(),
    decreases fs.len(),
{
    if fs.len() > 0 {
        let n = racha(s, fs[0], Clase::ColaCabecera) as int;
        lema_ultimo_fin_linea(s, fs[0], n);
        lema_primer_cierre(s, fs.drop_first());
    }
}

/// Where the first heading from `i` on starts and ends.
pub proof fn lema_cabecera_desde(s: Seq<char>, i: int)
    requires
        0 <= i,
    ensures
        cabecera_desde(s, i) matches Some((a, e)) ==> i <= a < s.len() && 0 <= e <= s.len(),
    decreases s.len() - i,
{
    if i < s.len() {
        lema_primer_cierre(s, finales_cabecera(s, i));
        lema_cabecera_desde(s, i + 1);
    }
}

/// The map of the key as the parser holds it: each letter as a string.
pub open spec fn clave_como_cadenas(m: Map<u32, char>, h: Map<u32, String>) -> bool {
    &&& h.dom() == m.dom()
    &&& forall|k: u32| #[trigger] h.contains_key(k) ==> h[k]@ == seq![m[k]]
}

proof fn lema_entradas_letras(s: Seq<char>, i: int)
    requires
        0 <= i,
    ensures
        forall|k: int| 0 <= k < entradas_desde(s, i).len() ==> 'A' <= (#[trigger] entradas_desde(s, i)[k]).1 <= 'D',
    decreases s.len() - i,
{
    if i < s.len() {
        lema_entrada_en(s, i);
        match entrada_en(s, i) {
            Some((e, None, _)) => {
                lema_entradas_letras(s, e);
                assert(entradas_desde(s, i) == entradas_desde(s, e));
            },
            Some((e, Some(n), l)) => {
                lema_entradas_letras(s, e);
                let r = entradas_desde(s, e);
                assert(entradas_desde(s, i) == seq![(n, l)] + r);
                assert forall|k: int| 0 <= k < entradas_desde(s, i).len() implies 'A' <= (
                #[trigger] entradas_desde(s, i)[k]).1 <= 'D' by {
                    if k > 0 {
                        assert(entradas_desde(s, i)[k] == r[k - 1]);
                    } else {
                        assert(entradas_desde(s, i)[k] == (n, l));
                    }
                }
            },
            None => {
                lema_entradas_letras(s, i + 1);
                assert(entradas_desde(s, i) == entradas_desde(s, i + 1));
            },
        }
    }
}

proof fn lema_mapa_entradas_letras(es: Seq<(u32, char)>)
    requires
        forall|k: int| 0 <= k < es.len() ==> 'A' <= (#[trigger] es[k]).1 <= 'D',
    ensures
        forall|n: u32| #[trigger] mapa_entradas(es).contains_key(n) ==> 'A' <= mapa_entradas(es)[n] <= 'D',
    decreases es.len(),
{
    if es.len() > 0 {
        let p = es.drop_last();
        assert forall|k: int| 0 <= k < p.len() implies 'A' <= (#[trigger] p[k]).1 <= 'D' by {
            assert(p[k] == es[k]);
        }
        lema_mapa_entradas_letras(p);
        assert('A' <= es[es.len() - 1].1 <= 'D');
        let m = mapa_entradas(p);
        assert(mapa_entradas(es) == m.insert(es.last().0, es.last().1));
        assert forall|n: u32| #[trigger] mapa_entradas(es).contains_key(n) implies 'A'
            <= mapa_entradas(es)[n] <= 'D' by {
            if n != es.last().0 {
                assert(m.contains_key(n));
            }
        }
    }
}

proof fn lema_letras_solas(s: Seq<char>, i: int)
    requires
        0 <= i,
    ensures
        forall|k: int| 0 <= k < letras_solas_desde(s, i).len() ==> 'A' <= #[trigger] letras_solas_desde(s, i)[k] <= 'D',
    decreases s.len() - i,
{
    if i < s.len() {
        lema_letra_sola_en(s, i);
        match letra_sola_en(s, i) {
            Some((e, l)) => {
                lema_letras_solas(s, e);
                let r = letras_solas_desde(s, e);
                assert(letras_solas_desde(s, i) == seq![l] + r);
                assert forall|k: int| 0 <= k < letras_solas_desde(s, i).len() implies 'A'
                    <= #[trigger] letras_solas_desde(s, i)[k] <= 'D' by {
                    if k > 0 {
                        assert(letras_solas_desde(s, i)[k] == r[k - 1]);
                    } else {
                        assert(letras_solas_desde(s, i)[k] == l);
                    }
                }
            },
            None => {
                lema_letras_solas(s, i + 1);
                assert(letras_solas_desde(s, i) == letras_solas_desde(s, i + 1));
            },
        }
    }
}

/// Every letter of the key read out of a text is one of `A` to `D`.
pub proof fn lema_letras_de_clave(s: Seq<char>)
    ensures
        forall|n: u32| #[trigger] separar_clave_spec(s).1.contains_key(n) ==> 'A' <= separar_clave_spec(s).1[n] <= 'D',
{
    match cabecera_desde(s, 0) {
        Some((a, e)) => {
            let b = s.skip(e);
            lema_entradas_letras(b, 0);
            lema_mapa_entradas_letras(entradas_desde(b, 0));
            lema_letras_solas(b, 0);
        },
        None => {},
    }
}

pub open spec fn como_enteros(v: Seq<usize>) -> Seq<int> {
    v.map_values(|x: usize| x as int)
}

fn s_opcional_exec(t: &Vec<char>, e: usize, out: &mut Vec<usize>, Ghost(i): Ghost<int>)
    requires
        i <= e <= t@.len(),
        forall|k: int| 0 <= k < old(out)@.len() ==> i <= #[trigger] old(out)@[k] <= t@.len(),
    ensures
        como_enteros(final(out)@) == como_enteros(old(out)@) + s_opcional(t@, e as int),
        forall|k: int| 0 <= k < final(out)@.len() ==> i <= #[trigger] final(out)@[k] <= t@.len(),
{
    let largo = t.len();
    let ese = vec!['s'];
    assert(ese@ =~= seq!['s']);
    let ghost antes = como_enteros(out@);
    if coincide_sin_caso_exec(t, e, &ese) {
        out.push(e + 1);
        out.push(e);
        assert(como_enteros(out@) =~= antes + seq![e + 1, e as int]);
    } else {
        out.push(e);
        assert(como_enteros(out@) =~= antes + seq![e as int]);
    }
}

fn grupo_correcta_exec(t: &Vec<char>, b: usize, out: &mut Vec<usize>, Ghost(i): Ghost<int>)
    requires
        i <= b <= t@.len(),
        forall|k: int| 0 <= k < old(out)@.len() ==> i <= #[trigger] old(out)@[k] <= t@.len(),
    ensures
        como_enteros(final(out)@) == como_enteros(old(out)@) + grupo_correcta(t@, b as int),
        forall|k: int| 0 <= k < final(out)@.len() ==> i <= #[trigger] final(out)@[k] <= t@.len(),
{
    let largo = t.len();
    let correcta = vec!['c', 'o', 'r', 'r', 'e', 'c', 't', 'a'];
    assert(correcta@ =~= palabra_correcta());
    let w = contar_racha(t, b, Clase::Espacio);
    let ghost antes = como_enteros(out@);
    if coincide_sin_caso_exec(t, b + w, &correcta) {
        s_opcional_exec(t, b + w + 8, out, Ghost(i));
        let ghost medio = como_enteros(out@);
        out.push(b);
        assert(como_enteros(out@) =~= medio + seq![b as int]);
        assert(como_enteros(out@) =~= antes + (s_opcional(t@, b + w + 8) + seq![b as int]));
    } else {
        out.push(b);
        assert(como_enteros(out@) =~= antes + seq![b as int]);
    }
}

fn finales_cabecera_exec(t: &Vec<char>, i: usize) -> (r: Vec<usize>)
    requires
        i <= t@.len(),
    ensures
        como_enteros(r@) == finales_cabecera(t@, i as int),
        forall|k: int| 0 <= k < r@.len() ==> i <= #[trigger] r@[k] <= t@.len(),
{
    let largo = t.len();
    let ese = vec!['s'];
    assert(ese@ =~= seq!['s']);
    let solucione = vec!['s', 'o', 'l', 'u', 'c', 'i', 'o', 'n', 'e'];
    let respuesta = vec!['r', 'e', 's', 'p', 'u', 'e', 's', 't', 'a'];
    let clave = vec!['c', 'l', 'a', 'v', 'e'];
    let de = vec!['d', 'e'];
    let contestacione = vec!['c', 'o', 'n', 't', 'e', 's', 't', 'a', 'c', 'i', 'o', 'n', 'e'];
    let answer = vec!['a', 'n', 's', 'w', 'e', 'r'];
    assert(solucione@ =~= palabra_solucione());
    assert(respuesta@ =~= palabra_respuesta());
    assert(clave@ =~= palabra_clave());
    assert(de@ =~= palabra_de());
    assert(contestacione@ =~= palabra_contestacione());
    assert(answer@ =~= palabra_answer());
    let mut r: Vec<usize> = Vec::new();
    assert(como_enteros(r@) =~= Seq::<int>::empty());
    if coincide_sin_caso_exec(t, i, &solucione) {
        s_opcional_exec(t, i + 9, &mut r, Ghost(i as int));
    }
    let ghost a1 = como_enteros(r@);
    if coincide_sin_caso_exec(t, i, &respuesta) {
        let e = i + 9;
        if coincide_sin_caso_exec(t, e, &ese) {
            grupo_correcta_exec(t, e + 1, &mut r, Ghost(i as int));
            grupo_correcta_exec(t, e, &mut r, Ghost(i as int));
        } else {
            grupo_correcta_exec(t, e, &mut r, Ghost(i as int));
        }
        assert(como_enteros(r@) =~= a1 + tras_respuesta(t@, e as int));
    }
    let ghost a2 = como_enteros(r@);
    if coincide_sin_caso_exec(t, i, &clave) {
        let a = i + 5;
        let w1 = contar_racha(t, a, Clase::Espacio);
        if coincide_sin_caso_exec(t, a + w1, &de) {
            let b = a + w1 + 2;
            let w2 = contar_racha(t, b, Clase::Espacio);
            if coincide_sin_caso_exec(t, b + w2, &respuesta) {
                s_opcional_exec(t, b + w2 + 9, &mut r, Ghost(i as int));
            }
        }
        r.push(a);
    }
    assert(como_enteros(r@) =~= a2 + alternativa_clave(t@, i as int));
    let ghost a3 = como_enteros(r@);
    if coincide_sin_caso_exec(t, i, &contestacione) {
        s_opcional_exec(t, i + 13, &mut r, Ghost(i as int));
    }
    let ghost a4 = como_enteros(r@);
    if coincide_sin_caso_exec(t, i, &answer) {
        s_opcional_exec(t, i + 6, &mut r, Ghost(i as int));
    }
    assert(como_enteros(r@) =~= finales_cabecera(t@, i as int));
    r
}

fn cabecera_en_exec(t: &Vec<char>, i: usize) -> (r: Option<usize>)
    requires
        i <= t@.len(),
    ensures
        r matches Some(e) ==> cabecera_en(t@, i as int) == Some(e as int) && i <= e <= t@.len(),
        r is None ==> cabecera_en(t@, i as int) is None,
{
    if !(i == 0 || t[i - 1] == '\n') {
        return None;
    }
    let fs = finales_cabecera_exec(t, i);
    let ghost f = finales_cabecera(t@, i as int);
    let largo = t.len();
    let mut k: usize = 0;
    assert(f.skip(0) =~= f);
    assert(es_inicio_linea(t@, i as int));
    while k < fs.len()
        invariant
            largo == t@.len(),
            es_inicio_linea(t@, i as int),
            k <= fs@.len(),
            como_enteros(fs@) == f,
            f == finales_cabecera(t@, i as int),
            forall|m: int| 0 <= m < fs@.len() ==> i <= #[trigger] fs@[m] <= t@.len(),
            primer_cierre(t@, f) == primer_cierre(t@, f.skip(k as int)),
        decreases fs@.len() - k,
    {
        let e = fs[k];
        assert(f.skip(k as int)[0] == e as int);
        assert(f.skip(k as int).drop_first() =~= f.skip(k + 1));
        let n = contar_racha(t, e, Clase::ColaCabecera);
        match ultimo_fin_linea_exec(t, e, n) {
            Some(d) => {
                proof {
                    lema_ultimo_fin_linea(t@, e as int, n as int);
                    assert(cola_cabecera(t@, e as int) == Some(e + d));
                    let g = f.skip(k as int);
                    assert(g.len() > 0);
                    assert(primer_cierre(t@, g) == Some(e + d));
                }
                return Some(e + d);
            },
            None => {},
        }
        k += 1;
    }
    assert(f.skip(k as int) =~= Seq::<int>::empty());
    None
}

fn cabecera_desde_exec(t: &Vec<char>) -> (r: Option<(usize, usize)>)
    ensures
        r matches Some((a, e)) ==> cabecera_desde(t@, 0) == Some((a as int, e as int)) && a <= e
            <= t@.len(),
        r is None ==> cabecera_desde(t@, 0) is None,
{
    let mut i: usize = 0;
    while i < t.len()
        invariant
            i <= t@.len(),
            cabecera_desde(t@, 0) == cabecera_desde(t@, i as int),
        decreases t@.len() - i,
    {
        match cabecera_en_exec(t, i) {
            Some(e) => {
                return Some((i, e));
            },
            None => {},
        }
        i += 1;
    }
    None
}

fn entrada_en_exec(t: &Vec<char>, i: usize) -> (r: Option<(usize, Option<u32>, char)>)
    requires
        i <= t@.len(),
    ensures
        r matches Some((e, n, l)) ==> entrada_en(t@, i as int) == Some((e as int, n, l)),
        r is None ==> entrada_en(t@, i as int) is None,
{
    let largo = t.len();
    let r = contar_racha(t, i, Clase::Digito);
    if r < 1 || r > 3 {
        return None;
    }
    let n = contar_racha(t, i + r, Clase::SeparadorClave);
    let j = i + r + n;
    if n < 1 || j >= largo {
        return None;
    }
    let c = t[j];
    if !(('a' <= c && c <= 'd') || ('A' <= c && c <= 'D')) {
        return None;
    }
    if j + 1 < largo && de_palabra(t[j + 1]) {
        return None;
    }
    proof {
        lema_racha_acotada(t@, i as int, Clase::Digito);
    }
    if !todos_ascii(t, i, i + r) {
        return Some((j + 1, None, mayuscula_opcion_exec(c)));
    }
    proof {
        assert forall|k: int| i <= k < i + r implies es_digito_ascii(#[trigger] t@[k]) by {
            assert(t@.subrange(i as int, i + r)[k - i] == t@[k]);
        }
    }
    let v = valor_decimal_exec(t, i, i + r);
    Some((j + 1, Some(v), mayuscula_opcion_exec(c)))
}

proof fn lema_mapa_entradas_vacio(es: Seq<(u32, char)>)
    ensures
        es.len() > 0 ==> mapa_entradas(es).dom().contains(es.last().0),
{
}

fn letra_sola_en_exec(t: &Vec<char>, i: usize) -> (r: Option<(usize, char)>)
    requires
        i <= t@.len(),
    ensures
        r matches Some((e, l)) ==> letra_sola_en(t@, i as int) == Some((e as int, l)),
        r is None ==> letra_sola_en(t@, i as int) is None,
{
    let largo = t.len();
    if !(i == 0 || t[i - 1] == '\n') {
        return None;
    }
    let w = contar_racha(t, i, Clase::Espacio);
    let j = i + w;
    if j >= largo {
        return None;
    }
    let c = t[j];
    if !(('a' <= c && c <= 'd') || ('A' <= c && c <= 'D')) {
        return None;
    }
    let v = contar_racha(t, j + 1, Clase::Espacio);
    let r = ultimo_fin_linea_exec(t, j + 1, v);
    proof {
        lema_ultimo_fin_linea(t@, j + 1, v as int);
    }
    match r {
        Some(d) => Some((j + 1 + d, mayuscula_opcion_exec(c))),
        None => None,
    }
}

/// The key of the text `b` that follows an answer-key heading.
fn leer_clave(b: &Vec<char>) -> (m: HashMap<u32, String>)
    requires
        letras_solas_desde(b@, 0).len() < u32::MAX,
    ensures
        clave_como_cadenas(clave_de(b@), m@),
{
    let largo = b.len();
    let mut m: HashMap<u32, String> = HashMap::new();
    let ghost mut leidas: Seq<(u32, char)> = Seq::empty();
    let mut i: usize = 0;
    while i < largo
        invariant
            largo == b@.len(),
            i <= b@.len(),
            leidas + entradas_desde(b@, i as int) == entradas_desde(b@, 0),
            clave_como_cadenas(mapa_entradas(leidas), m@),
        decreases b@.len() - i,
    {
        proof {
            lema_entrada_en(b@, i as int);
        }
        match entrada_en_exec(b, i) {
            Some((e, None, _)) => {
                i = e;
            },
            Some((e, Some(n), l)) => {
                let v = vec![l];
                assert(v@ =~= seq![l]);
                let s = cadena(&v);
                m.insert(n, s);
                proof {
                    let nuevas = leidas.push((n, l));
                    assert(nuevas.drop_last() =~= leidas);
                    assert(leidas + (seq![(n, l)] + entradas_desde(b@, e as int)) =~= nuevas
                        + entradas_desde(b@, e as int));
                    leidas = nuevas;
                }
                i = e;
            },
            None => {
                i += 1;
            },
        }
    }
    assert(leidas + entradas_desde(b@, i as int) =~= leidas);
    proof {
        lema_mapa_entradas_vacio(leidas);
    }
    if !m.is_empty() {
        return m;
    }
    assert(leidas.len() == 0);
    assert(m@.dom() =~= Set::<u32>::empty());
    assert(mapa_posicional(Seq::<char>::empty()).dom() =~= Set::<u32>::empty());
    let mut num: u32 = 1;
    let ghost mut letras: Seq<char> = Seq::empty();
    let mut i: usize = 0;
    while i < largo
        invariant
            largo == b@.len(),
            letras_solas_desde(b@, 0).len() < u32::MAX,
            i <= b@.len(),
            letras + letras_solas_desde(b@, i as int) == letras_solas_desde(b@, 0),
            num == letras.len() + 1,
            letras.len() <= i,
            clave_como_cadenas(mapa_posicional(letras), m@),
        decreases b@.len() - i,
    {
        proof {
            lema_letra_sola_en(b@, i as int);
        }
        match letra_sola_en_exec(b, i) {
            Some((e, l)) => {
                let v = vec![l];
                assert(v@ =~= seq![l]);
                let s = cadena(&v);
                m.insert(num, s);
                proof {
                    let nuevas = letras.push(l);
                    assert(mapa_posicional(nuevas) =~= mapa_posicional(letras).insert(num, l));
                    assert(letras + (seq![l] + letras_solas_desde(b@, e as int)) =~= nuevas
                        + letras_solas_desde(b@, e as int));
                    letras = nuevas;
                }
                num += 1;
                i = e;
            },
            None => {
                i += 1;
            },
        }
    }
    assert(letras + letras_solas_desde(b@, i as int) =~= letras);
    m
}

/// Splits the text at the heading of its answer key: the body before it, and
/// the key read after it (`separar_clave_spec`).
pub fn separar_clave(t: &Vec<char>) -> (r: (Vec<char>, HashMap<u32, String>))
    requires
        clave_posicional_cabe(t@),
    ensures
        r.0@ == separar_clave_spec(t@).0,
        clave_como_cadenas(separar_clave_spec(t@).1, r.1@),
{
    match cabecera_desde_exec(t) {
        Some((a, e)) => {
            let cuerpo = crate::texto::copiar_rango(t, 0, a);
            let resto = crate::texto::copiar_rango(t, e, t.len());
            assert(cuerpo@ =~= t@.take(a as int));
            assert(resto@ =~= t@.skip(e as int));
            let m = leer_clave(&resto);
            (cuerpo, m)
        },
        None => {
            let cuerpo = crate::texto::copiar_rango(t, 0, t.len());
            assert(cuerpo@ =~= t@);
            let m: HashMap<u32, String> = HashMap::new();
            assert(m@ =~= Map::<u32, String>::empty());
            (cuerpo, m)
        },
    }
}

/// The body is the text up to the start of the first answer-key heading, and is
/// shorter than the text exactly where there is such a heading; without one the
/// key is empty; and every letter of the key is one of `A` to `D`.
pub proof fn lema_separar_clave(s: Seq<char>)
    ensures
        separar_clave_spec(s).0 == s.take(separar_clave_spec(s).0.len() as int),
        (separar_clave_spec(s).0.len() < s.len()) == (cabecera_desde(s, 0) is Some),
        cabecera_desde(s, 0) matches Some((a, e)) ==> separar_clave_spec(s).0.len() == a,
        !separar_clave_spec(s).1.is_empty() ==> cabecera_desde(s, 0) is Some,
        forall|n: u32| #[trigger] separar_clave_spec(s).1.contains_key(n) ==> 'A' <= separar_clave_spec(s).1[n] <= 'D',
{
    lema_cabecera_desde(s, 0);
    lema_letras_de_clave(s);
    if cabecera_desde(s, 0) is None {
        assert(s.take(s.len() as int) =~= s);
        assert(Map::<u32, char>::empty().is_empty());
    }
}

/// An entry of one to three ASCII digits, then separators (white space, `.`,
/// `)`, `-`, `:`), then a letter `A` to `D` in either case that ends a word,
/// gives the number the digits spell that letter in upper case.
pub proof fn lema_entrada_numerada(s: Seq<char>, i: int, r: int, j: int)
    requires
        0 <= i,
        1 <= r <= 3,
        i + r < j < s.len(),
        forall|k: int| i <= k < i + r ==> '0' <= #[trigger] s[k] <= '9',
        forall|k: int|
            i + r <= k < j ==> es_espacio(#[trigger] s[k]) || s[k] == '.' || s[k] == ')' || s[k]
                == '-' || s[k] == ':',
        ('a' <= s[j] <= 'd') || ('A' <= s[j] <= 'D'),
        j + 1 == s.len() || !es_de_palabra(s[j + 1]),
    ensures
        entrada_en(s, i) matches Some((e, Some(n), l)) && e == j + 1 && n == valor_decimal(
            s.subrange(i, i + r),
        ) && 'A' <= l <= 'D' && (l == s[j] || (l as u32) + 32 == (s[j] as u32)),
{
    assert(!es_digito(s[i + r]));
    lema_racha_hasta(s, i, i + r, Clase::Digito);
    lema_racha_hasta(s, i + r, j, Clase::SeparadorClave);
    let d = s.subrange(i, i + r);
    assert forall|k: int| 0 <= k < d.len() implies es_digito_ascii(#[trigger] d[k]) by {
        assert(d[k] == s[i + k]);
    }
    lema_valor_pequeno(d);
}

/// Every numbered entry read puts its number in the key, and the last entry
/// read for a number gives that number its letter.
pub proof fn lema_mapa_entradas_contiene(es: Seq<(u32, char)>)
    ensures
        forall|k: int| 0 <= k < es.len() ==> mapa_entradas(es).contains_key(#[trigger] es[k].0),
        forall|n: u32| #[trigger] mapa_entradas(es).contains_key(n) ==> exists|k: int|
            0 <= k < es.len() && es[k].0 == n && mapa_entradas(es)[n] == es[k].1 && forall|m: int|
                k < m < es.len() ==> #[trigger] es[m].0 != n,
    decreases es.len(),
{
    if es.len() > 0 {
        let p = es.drop_last();
        lema_mapa_entradas_contiene(p);
        let x = es.last();
        assert forall|k: int| 0 <= k < es.len() implies mapa_entradas(es).contains_key(
            #[trigger] es[k].0,
        ) by {
            if k < p.len() {
                assert(es[k] == p[k]);
            }
        }
        assert forall|n: u32| #[trigger] mapa_entradas(es).contains_key(n) implies exists|k: int|
            0 <= k < es.len() && es[k].0 == n && mapa_entradas(es)[n] == es[k].1 && forall|m: int|
                k < m < es.len() ==> #[trigger] es[m].0 != n by {
            if n == x.0 {
                assert(es[es.len() - 1] == x);
            } else {
                assert(mapa_entradas(p).contains_key(n));
                let k = choose|k: int|
                    0 <= k < p.len() && p[k].0 == n && mapa_entradas(p)[n] == p[k].1 && forall|m: int|
                        k < m < p.len() ==> #[trigger] p[m].0 != n;
                assert(es[k] == p[k]);
                assert forall|m: int| k < m < es.len() implies #[trigger] es[m].0 != n by {
                    if m < p.len() {
                        assert(es[m] == p[m]);
                    }
                }
            }
        }
    }
}

} // verus!
