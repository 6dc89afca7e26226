//! Questions, their options and the result of reading a document, and the
//! reading of the numbered questions out of the lines of its body.
use vstd::prelude::*;
use vstd::string::StringExecFns;
use crate::texto::{
    racha, lema_racha_acotada, lema_racha_hasta, contar_racha, Clase, es_espacio, espacio, es_letra_opcion,
    mayuscula_opcion, mayuscula_opcion_exec, es_digito_ascii, recortar, lema_recortar_idempotente, recortar_exec, valor_decimal,
    valor_decimal_exec, reemplazar, numero_leido, todos_ascii, lineas, lineas_exec, vistas, copiar_rango, anexar, cadena, caracteres,
};
use crate::limpieza::{limpiar_texto_spec, limpiar_texto, lema_limpiar_finales, sin_retornos};
use crate::clave::{separar_clave_spec, separar_clave, lema_letras_de_clave, clave_posicional_cabe};
use crate::respuestas::{
    aplicar_clave, aplicar_clave_spec, buscar_respuesta_inline, buscar_respuesta_inline_spec,
    vista_clave, con_clave, con_marca, primera_marcada, lema_primera_marcada,
};
use crate::titulo::{inferir_titulo_spec, inferir_titulo};

verus! {

/// One option of a question: its letter and its text.
#[derive(Debug, Clone)]
pub struct Opcion {
    pub letra: String,
    pub texto: String,
}

pub struct OpcionV {
    pub letra: Seq<char>,
    pub texto: Seq<char>,
}

impl View for Opcion {
    type V = OpcionV;

    open spec fn view(&self) -> OpcionV {
        OpcionV { letra: self.letra@, texto: self.texto@ }
    }
}

/// A numbered question, its statement, its options and, where known, the
/// letter of its right answer.
#[derive(Debug, Clone)]
pub struct Pregunta {
    pub num: u32,
    pub enunciado: String,
    pub opciones: Vec<Opcion>,
    pub correcta: Option<String>,
}

pub struct PreguntaV {
    pub num: u32,
    pub enunciado: Seq<char>,
    pub opciones: Seq<OpcionV>,
    pub correcta: Option<Seq<char>>,
}

pub open spec fn vista_opciones(v: Seq<Opcion>) -> Seq<OpcionV> {
    v.map_values(|o: Opcion| o@)
}

pub open spec fn vista_correcta(c: Option<String>) -> Option<Seq<char>> {
    match c {
        Some(s) => Some(s@),
        None => None,
    }
}

impl View for Pregunta {
    type V = PreguntaV;

    open spec fn view(&self) -> PreguntaV {
        PreguntaV {
            num: self.num,
            enunciado: self.enunciado@,
            opciones: vista_opciones(self.opciones@),
            correcta: vista_correcta(self.correcta),
        }
    }
}

pub open spec fn vista_preguntas(v: Seq<Pregunta>) -> Seq<PreguntaV> {
    v.map_values(|p: Pregunta| p@)
}

/// What reading a document gives: a title, the questions, how many there are
/// and whether any has its answer.
#[derive(Debug, Clone)]
pub struct ResultadoParser {
    pub titulo: String,
    pub preguntas: Vec<Pregunta>,
    pub total: usize,
    pub con_clave: bool,
}

pub struct ResultadoV {
    pub titulo: Seq<char>,
    pub preguntas: Seq<PreguntaV>,
    pub total: usize,
    pub con_clave: bool,
}

impl View for ResultadoParser {
    type V = ResultadoV;

    open spec fn view(&self) -> ResultadoV {
        ResultadoV {
            titulo: self.titulo@,
            preguntas: vista_preguntas(self.preguntas@),
            total: self.total,
            con_clave: self.con_clave,
        }
    }
}

/// `^(\d{1,3})[\.\)]\-?\s*(.+)`: the line opens a question, a number of one to
/// three digits followed by `.` or `)` and some text.
pub open spec fn es_inicio_pregunta(l: Seq<char>) -> bool {
    let r = racha(l, 0, Clase::Digito) as int;
    1 <= r <= 3 && r + 1 < l.len() && (l[r] == '.' || l[r] == ')')
}

/// The number that opens a question line; 0 where one of its digits is not an
/// ASCII digit and so does not parse.
pub open spec fn numero_pregunta(l: Seq<char>) -> u32 {
    match numero_leido(l.take(racha(l, 0, Clase::Digito) as int)) {
        Some(n) => n,
        None => 0,
    }
}

/// `^\s*([A-Da-d])[\.\)]\s*\-?\s*(.+)`: the line opens an option, a letter from
/// `a` to `d` followed by `.` or `)` and some text.
pub open spec fn es_linea_opcion(l: Seq<char>) -> bool {
    let w = racha(l, 0, Clase::Espacio) as int;
    w + 2 < l.len() && es_letra_opcion(l[w]) && (l[w + 1] == '.' || l[w + 1] == ')')
}

/// The letter of an option line, upper case.
pub open spec fn letra_opcion(l: Seq<char>) -> char {
    mayuscula_opcion(l[racha(l, 0, Clase::Espacio) as int])
}

/// The text of an option line: what the group `(.+)` takes, trimmed. A dash
/// after the letter's mark is dropped, unless nothing follows it.
pub open spec fn texto_opcion(l: Seq<char>) -> Seq<char> {
    let p = racha(l, 0, Clase::Espacio) + 2int;
    let q = p + racha(l, p, Clase::Espacio);
    if q < l.len() && l[q] == '-' {
        let r = q + 1 + racha(l, q + 1, Clase::Espacio);
        if r < l.len() {
            recortar(l.subrange(r, l.len() as int))
        } else if r == q + 1 {
            seq!['-']
        } else {
            Seq::empty()
        }
    } else {
        recortar(l.subrange(q, l.len() as int))
    }
}

/// The lines joined with `sep` between each two (`join`).
pub open spec fn unir(ls: Seq<Seq<char>>, sep: char) -> Seq<char>
    decreases ls.len(),
{
    if ls.len() == 0 {
        Seq::empty()
    } else if ls.len() == 1 {
        ls[0]
    } else {
        unir(ls.drop_last(), sep) + seq![sep] + ls.last()
    }
}

/// `^\d{1,3}[\.\)]\-?\s*` removed from the start of a statement.
pub open spec fn quitar_numero(s: Seq<char>) -> Seq<char> {
    let r = racha(s, 0, Clase::Digito) as int;
    if 1 <= r <= 3 && r < s.len() && (s[r] == '.' || s[r] == ')') {
        let p = r + 1;
        let p2 = if p < s.len() && s[p] == '-' {
            p + 1
        } else {
            p
        };
        s.skip(p2 + racha(s, p2, Clase::Espacio))
    } else {
        s
    }
}

/// What reading the lines of a question's block has gathered so far.
pub struct EstadoBloque {
    pub enunciado: Seq<Seq<char>>,
    pub opciones: Seq<(char, Seq<char>)>,
    pub en_opciones: bool,
}

/// One more line of a block: the options start at the first option line; after
/// that an option line adds an option, and any other line that is not blank
/// continues the text of the last option.
pub open spec fn paso_bloque(e: EstadoBloque, l: Seq<char>) -> EstadoBloque {
    if e.en_opciones || es_linea_opcion(l) {
        if es_linea_opcion(l) {
            EstadoBloque {
                enunciado: e.enunciado,
                opciones: e.opciones.push((letra_opcion(l), texto_opcion(l))),
                en_opciones: true,
            }
        } else if e.opciones.len() > 0 && recortar(l).len() > 0 {
            let u = e.opciones.last();
            EstadoBloque {
                enunciado: e.enunciado,
                opciones: e.opciones.update(
                    e.opciones.len() - 1,
                    (u.0, u.1 + seq![' '] + recortar(l)),
                ),
                en_opciones: true,
            }
        } else {
            EstadoBloque { enunciado: e.enunciado, opciones: e.opciones, en_opciones: true }
        }
    } else {
        EstadoBloque {
            enunciado: e.enunciado.push(l),
            opciones: e.opciones,
            en_opciones: false,
        }
    }
}

pub open spec fn estado_bloque(b: Seq<Seq<char>>) -> EstadoBloque
    decreases b.len(),
{
    if b.len() == 0 {
        EstadoBloque { enunciado: Seq::empty(), opciones: Seq::empty(), en_opciones: false }
    } else {
        paso_bloque(estado_bloque(b.drop_last()), b.last())
    }
}

pub open spec fn vista_opcion_leida(o: (char, Seq<char>)) -> OpcionV {
    OpcionV { letra: seq![o.0], texto: o.1 }
}

/// The question a block of lines holds: none where its statement is empty or it
/// has no option.
pub open spec fn pregunta_de_bloque(b: Seq<Seq<char>>) -> Option<PreguntaV> {
    let e = estado_bloque(b);
    let enunciado = recortar(quitar_numero(unir(e.enunciado, ' ')));
    if enunciado.len() == 0 || e.opciones.len() == 0 {
        None
    } else {
        Some(
            PreguntaV {
                num: numero_pregunta(b[0]),
                enunciado,
                opciones: e.opciones.map_values(|o: (char, Seq<char>)| vista_opcion_leida(o)),
                correcta: None,
            },
        )
    }
}

/// The first line at or after `j` that opens a question, or the end.
pub open spec fn siguiente_pregunta(ls: Seq<Seq<char>>, j: int) -> int
    decreases ls.len() - j,
{
    if j < 0 || j >= ls.len() {
        ls.len() as int
    } else if es_inicio_pregunta(ls[j]) {
        j
    } else {
        siguiente_pregunta(ls, j + 1)
    }
}

pub proof fn lema_siguiente_pregunta(ls: Seq<Seq<char>>, j: int)
    requires
        0 <= j <= ls.len(),
    ensures
        j <= siguiente_pregunta(ls, j) <= ls.len(),
        forall|m: int| j <= m < siguiente_pregunta(ls, j) ==> !es_inicio_pregunta(#[trigger] ls[m]),
    decreases ls.len() - j,
{
    if j < ls.len() && !es_inicio_pregunta(ls[j]) {
        lema_siguiente_pregunta(ls, j + 1);
    }
}

pub open spec fn como_secuencia<A>(o: Option<A>) -> Seq<A> {
    match o {
        Some(a) => seq![a],
        None => Seq::empty(),
    }
}

/// The questions of the lines from `i` on, in the order of the document: each
/// block runs from a line that opens a question to the next such line; lines
/// before the first are not read.
pub open spec fn preguntas_desde(ls: Seq<Seq<char>>, i: int) -> Seq<PreguntaV>
    decreases ls.len() - i,
{
    if i < 0 || i >= ls.len() {
        Seq::empty()
    } else if !es_inicio_pregunta(ls[i]) {
        preguntas_desde(ls, i + 1)
    } else {
        let k = siguiente_pregunta(ls, i + 1);
        proof {
            lema_siguiente_pregunta(ls, i + 1);
        }
        como_secuencia(pregunta_de_bloque(ls.subrange(i, k))) + preguntas_desde(ls, k)
    }
}

/// The first place after the questions numbered at most `n`, from `j` on.
pub open spec fn posicion_desde(r: Seq<PreguntaV>, n: u32, j: int) -> int
    decreases r.len() - j,
{
    if j < 0 || j >= r.len() {
        r.len() as int
    } else if r[j].num > n {
        j
    } else {
        posicion_desde(r, n, j + 1)
    }
}

/// `p` inserted after every question whose number is not greater than its own.
pub open spec fn insertar_por_num(r: Seq<PreguntaV>, p: PreguntaV) -> Seq<PreguntaV> {
    r.insert(posicion_desde(r, p.num, 0), p)
}

/// The questions in the order of their numbers, those of equal number in the
/// order they came (the stable `sort_by_key`).
pub open spec fn ordenar_por_num(s: Seq<PreguntaV>) -> Seq<PreguntaV>
    decreases s.len(),
{
    if s.len() == 0 {
        Seq::empty()
    } else {
        insertar_por_num(ordenar_por_num(s.drop_last()), s.last())
    }
}

/// The questions of a document's body, ordered by number; none found is an
/// error.
pub open spec fn extraer_preguntas_spec(texto: Seq<char>) -> Option<Seq<PreguntaV>> {
    let crudas = preguntas_desde(lineas(texto), 0);
    if crudas.len() == 0 {
        None
    } else {
        Some(ordenar_por_num(crudas))
    }
}

fn inicio_pregunta_exec(l: &Vec<char>) -> (r: bool)
    ensures
        r == es_inicio_pregunta(l@),
{
    let largo = l.len();
    let r = contar_racha(l, 0, Clase::Digito);
    1 <= r && r <= 3 && r + 1 < largo && (l[r] == '.' || l[r] == ')')
}

fn numero_pregunta_exec(l: &Vec<char>) -> (n: u32)
    requires
        es_inicio_pregunta(l@),
    ensures
        n == numero_pregunta(l@),
{
    let r = contar_racha(l, 0, Clase::Digito);
    proof {
        lema_racha_acotada(l@, 0, Clase::Digito);
    }
    assert(l@.subrange(0, r as int) =~= l@.take(r as int));
    if !todos_ascii(l, 0, r) {
        return 0;
    }
    proof {
        assert forall|k: int| 0 <= k < r implies es_digito_ascii(#[trigger] l@[k]) by {
            assert(l@.take(r as int)[k] == l@[k]);
        }
    }
    valor_decimal_exec(l, 0, r)
}

fn linea_opcion_exec(l: &Vec<char>) -> (r: bool)
    ensures
        r == es_linea_opcion(l@),
{
    let largo = l.len();
    let w = contar_racha(l, 0, Clase::Espacio);
    if largo - w <= 2 {
        return false;
    }
    let c = l[w];
    (('a' <= c && c <= 'd') || ('A' <= c && c <= 'D')) && (l[w + 1] == '.' || l[w + 1] == ')')
}

fn texto_opcion_exec(l: &Vec<char>) -> (r: Vec<char>)
    requires
        es_linea_opcion(l@),
    ensures
        r@ == texto_opcion(l@),
{
    let largo = l.len();
    let p = contar_racha(l, 0, Clase::Espacio) + 2;
    let q = p + contar_racha(l, p, Clase::Espacio);
    if q < largo && l[q] == '-' {
        let r = q + 1 + contar_racha(l, q + 1, Clase::Espacio);
        if r < largo {
            let resto = copiar_rango(l, r, largo);
            recortar_exec(&resto)
        } else if r == q + 1 {
            let v = vec!['-'];
            assert(v@ =~= seq!['-']);
            v
        } else {
            Vec::new()
        }
    } else {
        let resto = copiar_rango(l, q, largo);
        recortar_exec(&resto)
    }
}

fn quitar_numero_exec(s: &Vec<char>) -> (r: Vec<char>)
    ensures
        r@ == quitar_numero(s@),
{
    let largo = s.len();
    let r = contar_racha(s, 0, Clase::Digito);
    if 1 <= r && r <= 3 && r < largo && (s[r] == '.' || s[r] == ')') {
        let p = r + 1;
        let p2 = if p < largo && s[p] == '-' {
            p + 1
        } else {
            p
        };
        let fin = p2 + contar_racha(s, p2, Clase::Espacio);
        let v = copiar_rango(s, fin, largo);
        assert(v@ =~= s@.skip(fin as int));
        v
    } else {
        copiar_rango(s, 0, largo)
    }
}

pub open spec fn vista_leidas(v: Seq<(char, Vec<char>)>) -> Seq<(char, Seq<char>)> {
    v.map_values(|o: (char, Vec<char>)| (o.0, o.1@))
}

/// The question that the block `ls[i..k]` holds (`pregunta_de_bloque`).
fn pregunta_de_bloque_exec(ls: &Vec<Vec<char>>, i: usize, k: usize) -> (r: Option<Pregunta>)
    requires
        i < k <= ls@.len(),
        es_inicio_pregunta(ls@[i as int]@),
    ensures
        match r {
            Some(p) => pregunta_de_bloque(vistas(ls@).subrange(i as int, k as int)) == Some(p@),
            None => pregunta_de_bloque(vistas(ls@).subrange(i as int, k as int)) is None,
        },
{
    let ghost b = vistas(ls@).subrange(i as int, k as int);
    let ghost mut lineas_enunciado: Seq<Seq<char>> = Seq::empty();
    let mut unido: Vec<char> = Vec::new();
    let mut opciones: Vec<(char, Vec<char>)> = Vec::new();
    let mut en_opciones = false;
    let mut alguna = false;
    let mut j = i;
    assert(b.take(0) =~= Seq::<Seq<char>>::empty());
    assert(vista_leidas(opciones@) =~= Seq::<(char, Seq<char>)>::empty());
    while j < k
        invariant
            i <= j <= k <= ls@.len(),
            b == vistas(ls@).subrange(i as int, k as int),
            estado_bloque(b.take(j - i)) == (EstadoBloque {
                enunciado: lineas_enunciado,
                opciones: vista_leidas(opciones@),
                en_opciones,
            }),
            unido@ == unir(lineas_enunciado, ' '),
            alguna == (lineas_enunciado.len() > 0),
        decreases k - j,
    {
        let linea = &ls[j];
        assert(b.take(j + 1 - i).drop_last() =~= b.take(j - i));
        assert(b.take(j + 1 - i).last() == linea@);
        let es_opcion = linea_opcion_exec(linea);
        if en_opciones || es_opcion {
            if es_opcion {
                let c = mayuscula_opcion_exec(linea[contar_racha(linea, 0, Clase::Espacio)]);
                let texto = texto_opcion_exec(linea);
                let ghost antes = vista_leidas(opciones@);
                opciones.push((c, texto));
                assert(vista_leidas(opciones@) =~= antes.push((letra_opcion(linea@), texto_opcion(linea@))));
            } else {
                let recortada = recortar_exec(linea);
                if opciones.len() > 0 && recortada.len() > 0 {
                    let ghost antes = vista_leidas(opciones@);
                    let ghost viejo = opciones@;
                    let (c, mut texto) = opciones.pop().unwrap();
                    assert(c == viejo.last().0 && texto@ == viejo.last().1@);
                    assert(opciones@ == viejo.drop_last());
                    texto.push(' ');
                    anexar(&mut texto, &recortada);
                    assert(texto@ =~= viejo.last().1@ + seq![' '] + recortar(linea@));
                    opciones.push((c, texto));
                    proof {
                        let u = antes.last();
                        assert(u == (viejo.last().0, viejo.last().1@));
                        assert(vista_leidas(opciones@) =~= antes.update(
                            antes.len() - 1,
                            (u.0, u.1 + seq![' '] + recortar(linea@)),
                        ));
                    }
                }
            }
            en_opciones = true;
        } else {
            let ghost antes = lineas_enunciado;
            if alguna {
                unido.push(' ');
            }
            alguna = true;
            anexar(&mut unido, linea);
            proof {
                lineas_enunciado = antes.push(linea@);
                assert(lineas_enunciado.drop_last() =~= antes);
                if antes.len() == 0 {
                    assert(unido@ =~= linea@);
                } else {
                    assert(unido@ =~= unir(antes, ' ') + seq![' '] + linea@);
                }
            }
        }
        j += 1;
    }
    assert(b.take(k - i) =~= b);
    let sin_numero = quitar_numero_exec(&unido);
    let enunciado = recortar_exec(&sin_numero);
    if enunciado.len() == 0 || opciones.len() == 0 {
        return None;
    }
    let mut lista: Vec<Opcion> = Vec::new();
    let mut m: usize = 0;
    while m < opciones.len()
        invariant
            m <= opciones@.len(),
            vista_opciones(lista@) == vista_leidas(opciones@).take(m as int).map_values(
                |o: (char, Seq<char>)| vista_opcion_leida(o),
            ),
        decreases opciones@.len() - m,
    {
        let v = vec![opciones[m].0];
        let letra = cadena(&v);
        let texto = cadena(&opciones[m].1);
        let ghost antes = vista_opciones(lista@);
        lista.push(Opcion { letra, texto });
        assert(v@ =~= seq![opciones@[m as int].0]);
        assert(vista_leidas(opciones@)[m as int] == (opciones@[m as int].0, opciones@[m as int].1@));
        assert(lista@.last()@ == vista_opcion_leida(vista_leidas(opciones@)[m as int]));
        assert(vista_opciones(lista@) =~= antes.push(lista@.last()@));
        assert(vista_leidas(opciones@).take(m + 1).map_values(
            |o: (char, Seq<char>)| vista_opcion_leida(o),
        ) =~= vista_leidas(opciones@).take(m as int).map_values(
            |o: (char, Seq<char>)| vista_opcion_leida(o),
        ).push(vista_opcion_leida(vista_leidas(opciones@)[m as int])));
        assert(vista_opciones(lista@) =~= vista_leidas(opciones@).take(m + 1).map_values(
            |o: (char, Seq<char>)| vista_opcion_leida(o),
        ));
        m += 1;
    }
    assert(vista_leidas(opciones@).take(m as int) =~= vista_leidas(opciones@));
    assert(b[0] == ls@[i as int]@);
    let num = numero_pregunta_exec(&ls[i]);
    let enunciado = cadena(&enunciado);
    Some(Pregunta { num, enunciado, opciones: lista, correcta: None })
}

/// Inserts `p` after the questions numbered at most `p.num` (`insertar_por_num`).
fn insertar_por_num_exec(r: &mut Vec<Pregunta>, p: Pregunta)
    ensures
        vista_preguntas(final(r)@) == insertar_por_num(vista_preguntas(old(r)@), p@),
{
    let ghost v = vista_preguntas(r@);
    let mut j: usize = 0;
    while j < r.len() && r[j].num <= p.num
        invariant
            j <= r@.len(),
            v == vista_preguntas(r@),
            posicion_desde(v, p.num, 0) == posicion_desde(v, p.num, j as int),
        decreases r@.len() - j,
    {
        j += 1;
    }
    r.insert(j, p);
    assert(vista_preguntas(r@) =~= v.insert(j as int, p@));
}

/// The message of a document in which no question was found.
pub open spec fn mensaje_sin_preguntas() -> Seq<char> {
    "No se encontraron preguntas. Comprueba el formato del documento."@
}

/// The questions of a document's body (`extraer_preguntas_spec`), or the message
/// that none was found.
pub fn extraer_preguntas(texto: &Vec<char>) -> (r: Result<Vec<Pregunta>, String>)
    ensures
        match r {
            Ok(ps) => extraer_preguntas_spec(texto@) == Some(vista_preguntas(ps@)),
            Err(e) => extraer_preguntas_spec(texto@) is None && e@ == mensaje_sin_preguntas(),
        },
{
    let ls = lineas_exec(texto);
    let ghost vl = vistas(ls@);
    let mut res: Vec<Pregunta> = Vec::new();
    let ghost mut crudas: Seq<PreguntaV> = Seq::empty();
    let mut i: usize = 0;
    assert(vista_preguntas(res@) =~= ordenar_por_num(crudas));
    while i < ls.len()
        invariant
            i <= ls@.len(),
            vl == vistas(ls@),
            vl == lineas(texto@),
            crudas + preguntas_desde(vl, i as int) == preguntas_desde(vl, 0),
            vista_preguntas(res@) == ordenar_por_num(crudas),
        decreases ls@.len() - i,
    {
        assert(vl[i as int] == ls@[i as int]@);
        if !inicio_pregunta_exec(&ls[i]) {
            i += 1;
        } else {
            let mut k = i + 1;
            while k < ls.len() && !inicio_pregunta_exec(&ls[k])
                invariant
                    i < k <= ls@.len(),
                    vl == vistas(ls@),
                    siguiente_pregunta(vl, i + 1) == siguiente_pregunta(vl, k as int),
                decreases ls@.len() - k,
            {
                assert(vl[k as int] == ls@[k as int]@);
                k += 1;
            }
            proof {
                if k < ls@.len() {
                    assert(vl[k as int] == ls@[k as int]@);
                }
            }
            let ghost antes = crudas;
            match pregunta_de_bloque_exec(&ls, i, k) {
                Some(p) => {
                    proof {
                        crudas = antes.push(p@);
                        assert(crudas.drop_last() =~= antes);
                    }
                    insertar_por_num_exec(&mut res, p);
                    assert(antes + (seq![crudas.last()] + preguntas_desde(vl, k as int)) =~= crudas
                        + preguntas_desde(vl, k as int));
                },
                None => {
                    assert(antes + (Seq::<PreguntaV>::empty() + preguntas_desde(vl, k as int))
                        =~= crudas + preguntas_desde(vl, k as int));
                },
            }
            i = k;
        }
    }
    assert(crudas + preguntas_desde(vl, i as int) =~= crudas);
    if res.len() == 0 {
        assert(crudas.len() == 0) by {
            if crudas.len() > 0 {
                lema_ordenar_conserva_largo(crudas);
            }
        }
        return Err(String::from_str("No se encontraron preguntas. Comprueba el formato del documento."));
    }
    proof {
        lema_ordenar_conserva_largo(crudas);
    }
    Ok(res)
}

pub proof fn lema_ordenar_conserva_largo(s: Seq<PreguntaV>)
    ensures
        ordenar_por_num(s).len() == s.len(),
    decreases s.len(),
{
    if s.len() > 0 {
        lema_ordenar_conserva_largo(s.drop_last());
        lema_posicion_acotada(ordenar_por_num(s.drop_last()), s.last().num, 0);
    }
}

pub proof fn lema_posicion_acotada(r: Seq<PreguntaV>, n: u32, j: int)
    requires
        0 <= j,
    ensures
        j <= posicion_desde(r, n, j) <= r.len() || (j > r.len() && posicion_desde(r, n, j) == r.len()),
    decreases r.len() - j,
{
    if j < r.len() && r[j].num <= n {
        lema_posicion_acotada(r, n, j + 1);
    }
}

/// The letters of a key as one-letter strings.
pub open spec fn clave_como_letras(m: Map<u32, char>) -> Map<u32, Seq<char>> {
    m.map_values(|c: char| seq![c])
}

/// Some question has its answer.
pub open spec fn alguna_con_respuesta(ps: Seq<PreguntaV>) -> bool {
    exists|k: int| 0 <= k < ps.len() && (#[trigger] ps[k]).correcta is Some
}

/// Reading a document: the text cleaned, split at its answer key, its questions
/// read and ordered, given their answers from the key or, where there is no key,
/// from the marks in their options, and titled.
pub open spec fn parsear_documento_spec(texto: Seq<char>, nombre: Seq<char>) -> Result<ResultadoV, Seq<char>> {
    let limpio = limpiar_texto_spec(texto);
    let (cuerpo, clave) = separar_clave_spec(limpio);
    match extraer_preguntas_spec(cuerpo) {
        None => Err(mensaje_sin_preguntas()),
        Some(crudas) => {
            let ps = if clave.is_empty() {
                buscar_respuesta_inline_spec(crudas)
            } else {
                aplicar_clave_spec(crudas, clave_como_letras(clave))
            };
            Ok(
                ResultadoV {
                    titulo: inferir_titulo_spec(limpio, nombre),
                    preguntas: ps,
                    total: ps.len() as usize,
                    con_clave: alguna_con_respuesta(ps),
                },
            )
        },
    }
}

/// Reads the questions of the text of a document from the file `nombre_archivo`.
pub fn parsear_documento(texto: &str, nombre_archivo: &str) -> (r: Result<ResultadoParser, String>)
    requires
        clave_posicional_cabe(limpiar_texto_spec(texto@)),
    ensures
        match r {
            Ok(res) => parsear_documento_spec(texto@, nombre_archivo@) == Ok::<ResultadoV, Seq<char>>(res@),
            Err(e) => parsear_documento_spec(texto@, nombre_archivo@) == Err::<ResultadoV, Seq<char>>(e@),
        },
{
    let t = caracteres(texto);
    let limpio = limpiar_texto(&t);
    let (cuerpo, clave_map) = separar_clave(&limpio);
    let ghost clave = separar_clave_spec(limpio@).1;
    let crudas = extraer_preguntas(&cuerpo)?;
    let ghost vc = vista_preguntas(crudas@);
    let preguntas = if clave_map.is_empty() {
        buscar_respuesta_inline(crudas)
    } else {
        assert(vista_clave(clave_map@) =~= clave_como_letras(clave));
        aplicar_clave(crudas, &clave_map)
    };
    let ghost ps = vista_preguntas(preguntas@);
    let mut con_clave = false;
    let mut k: usize = 0;
    while k < preguntas.len()
        invariant
            k <= preguntas@.len(),
            ps == vista_preguntas(preguntas@),
            con_clave == exists|j: int| 0 <= j < k && (#[trigger] ps[j]).correcta is Some,
        decreases preguntas@.len() - k,
    {
        assert(ps[k as int] == preguntas@[k as int]@);
        assert((ps[k as int].correcta is Some) == (preguntas@[k as int].correcta is Some));
        if preguntas[k].correcta.is_some() {
            con_clave = true;
        }
        k += 1;
    }
    let nombre = caracteres(nombre_archivo);
    let titulo = cadena(&inferir_titulo(&limpio, &nombre));
    let total = preguntas.len();
    Ok(ResultadoParser { titulo, preguntas, total, con_clave })
}

/// The questions are in the order of their numbers.
pub open spec fn ordenadas_por_num(s: Seq<PreguntaV>) -> bool {
    forall|i: int, j: int| 0 <= i < j < s.len() ==> (#[trigger] s[i]).num <= (#[trigger] s[j]).num
}

proof fn lema_posicion_desde(r: Seq<PreguntaV>, n: u32, j: int)
    requires
        0 <= j <= r.len(),
    ensures
        j <= posicion_desde(r, n, j) <= r.len(),
        forall|m: int| j <= m < posicion_desde(r, n, j) ==> (#[trigger] r[m]).num <= n,
        posicion_desde(r, n, j) < r.len() ==> r[posicion_desde(r, n, j)].num > n,
    decreases r.len() - j,
{
    if j < r.len() && r[j].num <= n {
        lema_posicion_desde(r, n, j + 1);
    }
}

/// Ordering the questions by number keeps every question and puts them in the
/// order of their numbers.
pub proof fn lema_ordenar_por_num(s: Seq<PreguntaV>)
    ensures
        ordenadas_por_num(ordenar_por_num(s)),
        ordenar_por_num(s).to_multiset() == s.to_multiset(),
        ordenar_por_num(s).len() == s.len(),
    decreases s.len(),
{
    broadcast use vstd::seq_lib::group_to_multiset_ensures;

    if s.len() > 0 {
        let r = ordenar_por_num(s.drop_last());
        let x = s.last();
        lema_ordenar_por_num(s.drop_last());
        lema_posicion_desde(r, x.num, 0);
        let p = posicion_desde(r, x.num, 0);
        let t = r.insert(p, x);
        assert forall|i: int, j: int| 0 <= i < j < t.len() implies (#[trigger] t[i]).num <= (
        #[trigger] t[j]).num by {
            if j < p {
                assert(t[i] == r[i] && t[j] == r[j]);
            } else if j == p {
                assert(t[i] == r[i]);
            } else if i < p {
                assert(t[i] == r[i] && t[j] == r[j - 1]);
                assert(r[p].num > x.num);
                if i < p && p < j - 1 {
                    assert(r[i].num <= r[p].num);
                    assert(r[p].num <= r[j - 1].num);
                }
            } else if i == p {
                assert(t[j] == r[j - 1]);
                assert(r[p].num > x.num);
                if p < j - 1 {
                    assert(r[p].num <= r[j - 1].num);
                }
            } else {
                assert(t[i] == r[i - 1] && t[j] == r[j - 1]);
            }
        }
        assert(s.drop_last().push(x) =~= s);
    }
}

/// A one-letter string from `A` to `D`.
pub open spec fn es_letra_valida(l: Seq<char>) -> bool {
    l.len() == 1 && 'A' <= l[0] <= 'D'
}

/// A question as the reader gives them: a statement, at least one option, each
/// lettered `A` to `D`, and an answer, where there is one, that is such a letter.
pub open spec fn pregunta_bien_formada(p: PreguntaV) -> bool {
    &&& p.enunciado.len() > 0
    &&& p.opciones.len() > 0
    &&& forall|k: int| 0 <= k < p.opciones.len() ==> es_letra_valida(#[trigger] p.opciones[k].letra)
    &&& p.correcta matches Some(c) ==> es_letra_valida(c)
}

pub open spec fn todas_bien_formadas(ps: Seq<PreguntaV>) -> bool {
    forall|k: int| 0 <= k < ps.len() ==> pregunta_bien_formada(#[trigger] ps[k])
}

proof fn lema_estado_letras(b: Seq<Seq<char>>)
    ensures
        forall|k: int|
            0 <= k < estado_bloque(b).opciones.len() ==> 'A' <= (#[trigger] estado_bloque(
                b,
            ).opciones[k]).0 <= 'D',
    decreases b.len(),
{
    if b.len() > 0 {
        lema_estado_letras(b.drop_last());
        let e = estado_bloque(b.drop_last());
        let l = b.last();
        if es_linea_opcion(l) {
            let w = racha(l, 0, Clase::Espacio) as int;
            assert(es_letra_opcion(l[w]));
        }
    }
}

/// A question as a block gives it: a number of three digits at most, a trimmed
/// statement and no answer yet.
pub open spec fn recien_leida(p: PreguntaV) -> bool {
    &&& p.num < 1000
    &&& recortar(p.enunciado) == p.enunciado
    &&& p.correcta is None
}

pub open spec fn todas_recien_leidas(ps: Seq<PreguntaV>) -> bool {
    forall|k: int| 0 <= k < ps.len() ==> recien_leida(#[trigger] ps[k])
}

proof fn lema_pregunta_de_bloque(b: Seq<Seq<char>>)
    requires
        b.len() > 0,
        es_inicio_pregunta(b[0]),
    ensures
        pregunta_de_bloque(b) matches Some(p) ==> pregunta_bien_formada(p) && recien_leida(p),
{
    lema_estado_letras(b);
    let l = b[0];
    let r = racha(l, 0, Clase::Digito) as int;
    let d = l.take(r);
    if crate::texto::digitos_ascii(d) {
        crate::clave::lema_valor_pequeno(d);
    }
    let e = estado_bloque(b);
    lema_recortar_idempotente(quitar_numero(unir(e.enunciado, ' ')));
}

proof fn lema_preguntas_desde(ls: Seq<Seq<char>>, i: int)
    requires
        0 <= i,
    ensures
        todas_bien_formadas(preguntas_desde(ls, i)),
        todas_recien_leidas(preguntas_desde(ls, i)),
    decreases ls.len() - i,
{
    if i < ls.len() {
        if !es_inicio_pregunta(ls[i]) {
            lema_preguntas_desde(ls, i + 1);
        } else {
            let k = siguiente_pregunta(ls, i + 1);
            lema_siguiente_pregunta(ls, i + 1);
            lema_preguntas_desde(ls, k);
            lema_pregunta_de_bloque(ls.subrange(i, k));
            let a = como_secuencia(pregunta_de_bloque(ls.subrange(i, k)));
            let r = preguntas_desde(ls, k);
            assert forall|m: int| 0 <= m < (a + r).len() implies pregunta_bien_formada(
                #[trigger] (a + r)[m],
            ) && recien_leida((a + r)[m]) by {
                if m < a.len() {
                    assert((a + r)[m] == a[m]);
                } else {
                    assert((a + r)[m] == r[m - a.len()]);
                }
            }
        }
    }
}

/// The questions found in a body all have a statement and options lettered
/// `A` to `D`, a number of three digits at most, a trimmed statement and no
/// answer yet, and come in the order of their numbers.
pub proof fn lema_extraer_preguntas(texto: Seq<char>)
    ensures
        extraer_preguntas_spec(texto) matches Some(ps) ==> ps.len() > 0 && todas_bien_formadas(ps)
            && todas_recien_leidas(ps) && ordenadas_por_num(ps),
{
    broadcast use vstd::seq_lib::group_to_multiset_ensures;

    let crudas = preguntas_desde(lineas(texto), 0);
    lema_preguntas_desde(lineas(texto), 0);
    lema_ordenar_por_num(crudas);
    let ps = ordenar_por_num(crudas);
    assert forall|k: int| 0 <= k < ps.len() implies pregunta_bien_formada(#[trigger] ps[k])
        && recien_leida(ps[k]) by {
        assert(ps.to_multiset().count(ps[k]) > 0);
        assert(crudas.contains(ps[k]));
    }
}

/// What reading a document promises: an error only when no question was found,
/// with its message; else at least one question, each with a statement and
/// options lettered `A` to `D`, in the order of their numbers, `total` their
/// number, `con_clave` whether any has its answer, and, where the document has
/// an answer key with an entry for a question's number, that entry as its answer.
pub proof fn lema_parsear_documento(texto: Seq<char>, nombre: Seq<char>)
    ensures
        parsear_documento_spec(texto, nombre) matches Err(e) ==> e == mensaje_sin_preguntas(),
        parsear_documento_spec(texto, nombre) matches Ok(r) ==> {
            &&& r.preguntas.len() > 0
            &&& r.total == r.preguntas.len() as usize
            &&& ordenadas_por_num(r.preguntas)
            &&& todas_bien_formadas(r.preguntas)
            &&& r.con_clave == alguna_con_respuesta(r.preguntas)
            &&& forall|k: int|
                0 <= k < r.preguntas.len() && separar_clave_spec(limpiar_texto_spec(texto)).1.contains_key(
                    (#[trigger] r.preguntas[k]).num,
                ) ==> r.preguntas[k].correcta == Some(
                    seq![separar_clave_spec(limpiar_texto_spec(texto)).1[r.preguntas[k].num]],
                )
        },
{
    let limpio = limpiar_texto_spec(texto);
    let (cuerpo, clave) = separar_clave_spec(limpio);
    lema_extraer_preguntas(cuerpo);
    lema_letras_de_clave(limpio);
    match extraer_preguntas_spec(cuerpo) {
        None => {},
        Some(crudas) => {
            if clave.is_empty() {
                let ps = buscar_respuesta_inline_spec(crudas);
                assert forall|k: int| 0 <= k < ps.len() implies pregunta_bien_formada(
                    #[trigger] ps[k],
                ) by {
                    let p = crudas[k];
                    assert(pregunta_bien_formada(p));
                    lema_primera_marcada(p.opciones, 0);
                }
                assert forall|i: int, j: int| 0 <= i < j < ps.len() implies (#[trigger] ps[i]).num
                    <= (#[trigger] ps[j]).num by {
                    assert(crudas[i].num <= crudas[j].num);
                }
            } else {
                let ps = aplicar_clave_spec(crudas, clave_como_letras(clave));
                assert forall|k: int| 0 <= k < ps.len() implies pregunta_bien_formada(
                    #[trigger] ps[k],
                ) by {
                    let p = crudas[k];
                    assert(pregunta_bien_formada(p));
                    if clave.contains_key(p.num) {
                        assert('A' <= clave[p.num] <= 'D');
                    }
                }
                assert forall|i: int, j: int| 0 <= i < j < ps.len() implies (#[trigger] ps[i]).num
                    <= (#[trigger] ps[j]).num by {
                    assert(crudas[i].num <= crudas[j].num);
                }
            }
        },
    }
}

/// The name of the file changes the title alone: the outcome, the questions,
/// their number and whether any has its answer are the same under any name.
pub proof fn lema_nombre_solo_titulo(texto: Seq<char>, n1: Seq<char>, n2: Seq<char>)
    ensures
        parsear_documento_spec(texto, n1) is Err ==> parsear_documento_spec(texto, n1)
            == parsear_documento_spec(texto, n2),
        parsear_documento_spec(texto, n1) matches Ok(a) ==> parsear_documento_spec(texto, n2) matches Ok(b)
            && a.preguntas == b.preguntas && a.total == b.total && a.con_clave == b.con_clave,
{
}

/// A document reads the same whether its lines end in `\n`, `\r\n` or `\r`.
pub proof fn lema_finales_de_linea(t: Seq<char>, nombre: Seq<char>)
    requires
        sin_retornos(t),
    ensures
        parsear_documento_spec(reemplazar(t, seq!['\n'], seq!['\r', '\n']), nombre)
            == parsear_documento_spec(t, nombre),
        parsear_documento_spec(reemplazar(t, seq!['\n'], seq!['\r']), nombre)
            == parsear_documento_spec(t, nombre),
{
    lema_limpiar_finales(t);
}

/// The questions of `s` numbered `n`, in their order in `s`.
pub open spec fn con_numero(s: Seq<PreguntaV>, n: u32) -> Seq<PreguntaV>
    decreases s.len(),
{
    if s.len() == 0 {
        Seq::empty()
    } else if s.last().num == n {
        con_numero(s.drop_last(), n).push(s.last())
    } else {
        con_numero(s.drop_last(), n)
    }
}

proof fn lema_con_numero_concat(a: Seq<PreguntaV>, b: Seq<PreguntaV>, n: u32)
    ensures
        con_numero(a + b, n) == con_numero(a, n) + con_numero(b, n),
    decreases b.len(),
{
    if b.len() == 0 {
        assert(a + b =~= a);
        assert(con_numero(a, n) + Seq::<PreguntaV>::empty() =~= con_numero(a, n));
    } else {
        lema_con_numero_concat(a, b.drop_last(), n);
        assert((a + b).drop_last() =~= a + b.drop_last());
        assert((a + b).last() == b.last());
        if b.last().num == n {
            assert(con_numero(a, n) + con_numero(b.drop_last(), n).push(b.last()) =~= (con_numero(a, n)
                + con_numero(b.drop_last(), n)).push(b.last()));
        }
    }
}

proof fn lema_con_numero_ninguna(s: Seq<PreguntaV>, n: u32)
    requires
        forall|k: int| 0 <= k < s.len() ==> (#[trigger] s[k]).num != n,
    ensures
        con_numero(s, n) == Seq::<PreguntaV>::empty(),
    decreases s.len(),
{
    if s.len() > 0 {
        assert(s.last().num != n);
        lema_con_numero_ninguna(s.drop_last(), n);
    }
}

proof fn lema_con_numero_insertar(r: Seq<PreguntaV>, x: PreguntaV, n: u32)
    requires
        ordenadas_por_num(r),
    ensures
        con_numero(insertar_por_num(r, x), n) == if x.num == n {
            con_numero(r, n).push(x)
        } else {
            con_numero(r, n)
        },
{
    lema_posicion_desde(r, x.num, 0);
    let p = posicion_desde(r, x.num, 0);
    let a = r.take(p);
    let b = r.skip(p);
    assert(r.insert(p, x) =~= a + (seq![x] + b));
    assert(r =~= a + b);
    lema_con_numero_concat(a, seq![x] + b, n);
    lema_con_numero_concat(seq![x], b, n);
    lema_con_numero_concat(a, b, n);
    assert(seq![x].drop_last() =~= Seq::<PreguntaV>::empty());
    assert(seq![x].last() == x);
    let cx = con_numero(seq![x], n);
    assert(Seq::<PreguntaV>::empty().push(x) =~= seq![x]);
    assert(con_numero(Seq::<PreguntaV>::empty(), n) =~= Seq::<PreguntaV>::empty());
    assert(con_numero(seq![x].drop_last(), n) =~= Seq::<PreguntaV>::empty());
    if x.num == n {
        assert(cx == con_numero(seq![x].drop_last(), n).push(x));
        assert(cx =~= seq![x]);
    } else {
        assert(cx =~= Seq::<PreguntaV>::empty());
    }
    assert(con_numero(insertar_por_num(r, x), n) == con_numero(a, n) + (cx + con_numero(b, n)));
    assert(con_numero(r, n) == con_numero(a, n) + con_numero(b, n));
    if x.num == n {
        assert forall|k: int| 0 <= k < b.len() implies (#[trigger] b[k]).num != n by {
            assert(b[k] == r[p + k]);
            assert(r[p].num > x.num);
            if k > 0 {
                assert(r[p].num <= r[p + k].num);
            }
        }
        lema_con_numero_ninguna(b, n);
        assert(con_numero(a, n) + (seq![x] + Seq::<PreguntaV>::empty()) =~= con_numero(a, n).push(x));
        assert(con_numero(a, n) + Seq::<PreguntaV>::empty() =~= con_numero(a, n));
    } else {
        assert(con_numero(a, n) + (Seq::<PreguntaV>::empty() + con_numero(b, n)) =~= con_numero(a, n)
            + con_numero(b, n));
    }
}

/// Ordering by number keeps the questions of each number in the order they came.
pub proof fn lema_ordenar_estable(s: Seq<PreguntaV>, n: u32)
    ensures
        con_numero(ordenar_por_num(s), n) == con_numero(s, n),
    decreases s.len(),
{
    if s.len() > 0 {
        lema_ordenar_estable(s.drop_last(), n);
        lema_ordenar_por_num(s.drop_last());
        lema_con_numero_insertar(ordenar_por_num(s.drop_last()), s.last(), n);
    }
}

/// The blocks of lines from `i` on: each runs from a line that opens a question
/// to the next such line.
pub open spec fn bloques_desde(ls: Seq<Seq<char>>, i: int) -> Seq<Seq<Seq<char>>>
    decreases ls.len() - i,
{
    if i < 0 || i >= ls.len() {
        Seq::empty()
    } else if !es_inicio_pregunta(ls[i]) {
        bloques_desde(ls, i + 1)
    } else {
        let k = siguiente_pregunta(ls, i + 1);
        proof {
            lema_siguiente_pregunta(ls, i + 1);
        }
        seq![ls.subrange(i, k)] + bloques_desde(ls, k)
    }
}

/// How many of the blocks hold a question: a statement that is not blank and at
/// least one option.
pub open spec fn bloques_con_pregunta(bs: Seq<Seq<Seq<char>>>) -> nat
    decreases bs.len(),
{
    if bs.len() == 0 {
        0
    } else {
        (if pregunta_de_bloque(bs[0]) is Some { 1nat } else { 0nat }) + bloques_con_pregunta(
            bs.drop_first(),
        )
    }
}

proof fn lema_cuenta_bloques(ls: Seq<Seq<char>>, i: int)
    requires
        0 <= i,
    ensures
        preguntas_desde(ls, i).len() == bloques_con_pregunta(bloques_desde(ls, i)),
    decreases ls.len() - i,
{
    if i < ls.len() {
        if !es_inicio_pregunta(ls[i]) {
            lema_cuenta_bloques(ls, i + 1);
        } else {
            let k = siguiente_pregunta(ls, i + 1);
            lema_siguiente_pregunta(ls, i + 1);
            lema_cuenta_bloques(ls, k);
            let bs = bloques_desde(ls, i);
            assert(bs.drop_first() =~= bloques_desde(ls, k));
            assert(bs[0] == ls.subrange(i, k));
        }
    }
}

/// The questions of a body: one for each block that holds a statement and an
/// option, and, for each number, those of that number in the order the
/// document gives them.
pub proof fn lema_extraer_estable(texto: Seq<char>)
    ensures
        extraer_preguntas_spec(texto) matches Some(ps) ==> {
            &&& ps.len() == bloques_con_pregunta(bloques_desde(lineas(texto), 0))
            &&& forall|n: u32| #[trigger] con_numero(ps, n) == con_numero(
                preguntas_desde(lineas(texto), 0),
                n,
            )
        },
{
    let crudas = preguntas_desde(lineas(texto), 0);
    lema_cuenta_bloques(lineas(texto), 0);
    lema_ordenar_por_num(crudas);
    assert forall|n: u32| #[trigger] con_numero(ordenar_por_num(crudas), n) == con_numero(crudas, n) by {
        lema_ordenar_estable(crudas, n);
    }
}

/// A line whose first character that is not white space is a letter `A` to `D`,
/// in either case, followed by `.` or `)` and more text, is an option line, and
/// its option is lettered with that letter in upper case.
pub proof fn lema_linea_de_opcion(l: Seq<char>, w: int)
    requires
        0 <= w,
        w + 2 < l.len(),
        forall|k: int| 0 <= k < w ==> es_espacio(#[trigger] l[k]),
        ('a' <= l[w] <= 'd') || ('A' <= l[w] <= 'D'),
        l[w + 1] == '.' || l[w + 1] == ')',
    ensures
        es_linea_opcion(l),
        'A' <= letra_opcion(l) <= 'D',
        letra_opcion(l) == l[w] || (letra_opcion(l) as u32) + 32 == (l[w] as u32),
{
    lema_racha_hasta(l, 0, w, Clase::Espacio);
}

/// How many of the lines open an option.
pub open spec fn lineas_de_opcion(b: Seq<Seq<char>>) -> nat
    decreases b.len(),
{
    if b.len() == 0 {
        0
    } else {
        lineas_de_opcion(b.drop_last()) + if es_linea_opcion(b.last()) { 1nat } else { 0nat }
    }
}

/// Every option line of a block gives it one option, lettered as the line is,
/// and no other line does.
pub proof fn lema_opciones_del_bloque(b: Seq<Seq<char>>)
    ensures
        estado_bloque(b).opciones.len() == lineas_de_opcion(b),
        b.len() > 0 && es_linea_opcion(b.last()) ==> estado_bloque(b).opciones.last().0
            == letra_opcion(b.last()),
        pregunta_de_bloque(b) matches Some(p) ==> p.opciones.len() == lineas_de_opcion(b),
    decreases b.len(),
{
    if b.len() > 0 {
        lema_opciones_del_bloque(b.drop_last());
    }
}

} // verus!
