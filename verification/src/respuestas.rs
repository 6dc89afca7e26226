//! Giving each question its right answer: from the answer key, or from a mark
//! written in the text of one of its options.
use vstd::prelude::*;
use std::collections::HashMap;
use crate::texto::{es_letra_opcion, coincide_sin_caso, coincide_sin_caso_exec, caracteres, igual_sin_caso};
use crate::parser::{Pregunta, PreguntaV, OpcionV, vista_preguntas, vista_opciones, vista_correcta};

verus! {

broadcast use vstd::std_specs::hash::group_hash_axioms;

/// The letters of a key as strings, by question number.
pub open spec fn vista_clave(h: Map<u32, String>) -> Map<u32, Seq<char>> {
    h.map_values(|s: String| s@)
}

/// `p` with the answer that the key gives its number, if the key has it.
pub open spec fn con_clave(p: PreguntaV, clave: Map<u32, Seq<char>>) -> PreguntaV {
    if clave.contains_key(p.num) {
        PreguntaV { correcta: Some(clave[p.num]), ..p }
    } else {
        p
    }
}

/// Every question given the answer that the key holds for its number; the
/// others left as they were.
pub open spec fn aplicar_clave_spec(ps: Seq<PreguntaV>, clave: Map<u32, Seq<char>>) -> Seq<PreguntaV> {
    ps.map_values(|p: PreguntaV| con_clave(p, clave))
}

/// Gives each question the answer that the key `clave` holds for its number.
pub fn aplicar_clave(preguntas: Vec<Pregunta>, clave: &HashMap<u32, String>) -> (r: Vec<Pregunta>)
    ensures
        vista_preguntas(r@) == aplicar_clave_spec(vista_preguntas(preguntas@), vista_clave(clave@)),
{
    let ghost inicial = vista_preguntas(preguntas@);
    let mut resto = preguntas;
    let mut r: Vec<Pregunta> = Vec::new();
    let mut i: usize = 0;
    let n = resto.len();
    while resto.len() > 0
        invariant
            n == inicial.len(),
            i + resto@.len() == n,
            vista_preguntas(resto@) == inicial.skip(i as int),
            vista_preguntas(r@) == aplicar_clave_spec(inicial.take(i as int), vista_clave(clave@)),
        decreases resto@.len(),
    {
        let ghost antes_resto = resto@;
        let mut p = resto.remove(0);
        assert(resto@ =~= antes_resto.drop_first());
        assert(vista_preguntas(resto@) =~= vista_preguntas(antes_resto).drop_first());
        assert(inicial.skip(i as int).drop_first() =~= inicial.skip(i + 1));
        assert(p@ == inicial[i as int]) by {
            assert(vista_preguntas(antes_resto)[0] == p@);
        }
        let ghost pv = p@;
        match clave.get(&p.num) {
            Some(letra) => {
                p.correcta = Some(letra.clone());
                assert(p@ == con_clave(pv, vista_clave(clave@))) by {
                    assert(p@.opciones == pv.opciones);
                }
            },
            None => {},
        }
        let ghost antes = vista_preguntas(r@);
        r.push(p);
        assert(vista_preguntas(r@) =~= antes.push(con_clave(pv, vista_clave(clave@))));
        assert(inicial.take(i + 1) =~= inicial.take(i as int).push(pv));
        assert(aplicar_clave_spec(inicial.take(i + 1), vista_clave(clave@)) =~= aplicar_clave_spec(
            inicial.take(i as int),
            vista_clave(clave@),
        ).push(con_clave(pv, vista_clave(clave@))));
        i += 1;
    }
    assert(inicial.take(i as int) =~= inicial);
    r
}

/// `(?i)\*{1,2}([A-D])\*{1,2}|\[([A-D])\]|\(correcta?\)` somewhere in `t`, or
/// `correcta` in its lower-case form: the text marks its option as the right one.
pub open spec fn tiene_marca(t: Seq<char>) -> bool {
    ||| exists|i: int|
        0 <= i && i + 2 < t.len() && t[i] == '*' && es_letra_opcion(#[trigger] t[i + 1]) && t[i
            + 2] == '*'
    ||| exists|i: int|
        0 <= i && i + 2 < t.len() && t[i] == '[' && es_letra_opcion(#[trigger] t[i + 1]) && t[i
            + 2] == ']'
    ||| exists|i: int|
        #[trigger] coincide_sin_caso(t, i, "(correct"@) && (coincide_sin_caso(t, i + 8, ")"@)
            || coincide_sin_caso(t, i + 8, "a)"@))
    ||| exists|i: int| #[trigger] coincide_sin_caso(t, i, "correcta"@)
}

/// The first option from `j` on whose text is marked.
pub open spec fn primera_marcada(os: Seq<OpcionV>, j: int) -> Option<int>
    decreases os.len() - j,
{
    if j < 0 || j >= os.len() {
        None
    } else if tiene_marca(os[j].texto) {
        Some(j)
    } else {
        primera_marcada(os, j + 1)
    }
}

pub proof fn lema_primera_marcada(os: Seq<OpcionV>, j: int)
    requires
        0 <= j,
    ensures
        primera_marcada(os, j) matches Some(k) ==> j <= k < os.len() && tiene_marca(os[k].texto),
        primera_marcada(os, j) is None ==> forall|k: int|
            j <= k < os.len() ==> !tiene_marca(#[trigger] os[k].texto),
    decreases os.len() - j,
{
    if j < os.len() && !tiene_marca(os[j].texto) {
        lema_primera_marcada(os, j + 1);
    }
}

/// `p` with the letter of its first marked option as its answer, if one is.
pub open spec fn con_marca(p: PreguntaV) -> PreguntaV {
    match primera_marcada(p.opciones, 0) {
        Some(k) => PreguntaV { correcta: Some(p.opciones[k].letra), ..p },
        None => p,
    }
}

pub open spec fn buscar_respuesta_inline_spec(ps: Seq<PreguntaV>) -> Seq<PreguntaV> {
    ps.map_values(|p: PreguntaV| con_marca(p))
}

fn marca_en(t: &Vec<char>, i: usize) -> (r: bool)
    requires
        i < t@.len(),
    ensures
        r == ((i + 2 < t@.len() && t@[i as int] == '*' && es_letra_opcion(t@[i + 1]) && t@[i + 2]
            == '*') || (i + 2 < t@.len() && t@[i as int] == '[' && es_letra_opcion(t@[i + 1]) && t@[i
            + 2] == ']')),
{
    let largo = t.len();
    if largo - i <= 2 {
        return false;
    }
    let c = t[i + 1];
    let letra = ('a' <= c && c <= 'd') || ('A' <= c && c <= 'D');
    (t[i] == '*' && letra && t[i + 2] == '*') || (t[i] == '[' && letra && t[i + 2] == ']')
}

/// Whether the text of an option marks it as the right one (`tiene_marca`).
pub fn tiene_marca_exec(t: &Vec<char>) -> (r: bool)
    ensures
        r == tiene_marca(t@),
{
    let abre = caracteres("(correct");
    let cierra = caracteres(")");
    let cierra_a = caracteres("a)");
    let palabra = caracteres("correcta");
    let largo = t.len();
    let mut i: usize = 0;
    while i < largo
        invariant
            largo == t@.len(),
            i <= t@.len(),
            abre@ == "(correct"@,
            cierra@ == ")"@,
            cierra_a@ == "a)"@,
            palabra@ == "correcta"@,
            forall|j: int|
                0 <= j < i ==> !(j + 2 < t@.len() && t@[j] == '*' && es_letra_opcion(
                    #[trigger] t@[j + 1],
                ) && t@[j + 2] == '*'),
            forall|j: int|
                0 <= j < i ==> !(j + 2 < t@.len() && t@[j] == '[' && es_letra_opcion(
                    #[trigger] t@[j + 1],
                ) && t@[j + 2] == ']'),
            forall|j: int|
                0 <= j < i ==> !(#[trigger] coincide_sin_caso(t@, j, "(correct"@) && (
                coincide_sin_caso(t@, j + 8, ")"@) || coincide_sin_caso(t@, j + 8, "a)"@))),
            forall|j: int| 0 <= j < i ==> !#[trigger] coincide_sin_caso(t@, j, "correcta"@),
        decreases t@.len() - i,
    {
        if marca_en(t, i) {
            return true;
        }
        if coincide_sin_caso_exec(t, i, &abre) {
            proof {
                reveal_strlit("(correct");
            }
            if coincide_sin_caso_exec(t, i + 8, &cierra) || coincide_sin_caso_exec(
                t,
                i + 8,
                &cierra_a,
            ) {
                return true;
            }
        }
        if coincide_sin_caso_exec(t, i, &palabra) {
            return true;
        }
        i += 1;
    }
    proof {
        reveal_strlit("correcta");
        reveal_strlit("(correct");
        assert forall|j: int| !#[trigger] coincide_sin_caso(t@, j, "correcta"@) by {
            if j < 0 || j >= t@.len() {
                if coincide_sin_caso(t@, j, "correcta"@) {
                    assert(j + ("correcta"@).len() <= t@.len());
                }
            }
        }
        assert forall|j: int|
            !(#[trigger] coincide_sin_caso(t@, j, "(correct"@) && (coincide_sin_caso(
                t@,
                j + 8,
                ")"@,
            ) || coincide_sin_caso(t@, j + 8, "a)"@))) by {
            if j < 0 || j >= t@.len() {
                if coincide_sin_caso(t@, j, "(correct"@) {
                    assert(j + ("(correct"@).len() <= t@.len());
                }
            }
        }
    }
    false
}

/// The answer of `p` taken from its first marked option (`con_marca`).
fn marcar_pregunta(p: &mut Pregunta)
    ensures
        final(p)@ == con_marca(old(p)@),
{
    let ghost os = old(p)@.opciones;
    let mut k: usize = 0;
    while k < p.opciones.len()
        invariant
            k <= p.opciones@.len(),
            p@ == old(p)@,
            os == vista_opciones(p.opciones@),
            primera_marcada(os, 0) == primera_marcada(os, k as int),
        decreases p.opciones@.len() - k,
    {
        let t = caracteres(p.opciones[k].texto.as_str());
        assert(os[k as int].texto == p.opciones@[k as int].texto@);
        if tiene_marca_exec(&t) {
            let letra = p.opciones[k].letra.clone();
            assert(letra@ == os[k as int].letra);
            p.correcta = Some(letra);
            return;
        }
        k += 1;
    }
}

/// Gives each question the letter of its first option whose text carries a
/// mark (`**B**`, `[B]`, `(correcta)`, or the word `correcta`).
pub fn buscar_respuesta_inline(preguntas: Vec<Pregunta>) -> (r: Vec<Pregunta>)
    ensures
        vista_preguntas(r@) == buscar_respuesta_inline_spec(vista_preguntas(preguntas@)),
{
    let ghost inicial = vista_preguntas(preguntas@);
    let mut resto = preguntas;
    let mut r: Vec<Pregunta> = Vec::new();
    let mut i: usize = 0;
    let n = resto.len();
    while resto.len() > 0
        invariant
            n == inicial.len(),
            i + resto@.len() == n,
            vista_preguntas(resto@) == inicial.skip(i as int),
            vista_preguntas(r@) == buscar_respuesta_inline_spec(inicial.take(i as int)),
        decreases resto@.len(),
    {
        let ghost antes_resto = resto@;
        let mut p = resto.remove(0);
        assert(resto@ =~= antes_resto.drop_first());
        assert(vista_preguntas(resto@) =~= vista_preguntas(antes_resto).drop_first());
        assert(inicial.skip(i as int).drop_first() =~= inicial.skip(i + 1));
        assert(p@ == inicial[i as int]) by {
            assert(vista_preguntas(antes_resto)[0] == p@);
        }
        let ghost pv = p@;
        marcar_pregunta(&mut p);
        let ghost antes = vista_preguntas(r@);
        r.push(p);
        assert(vista_preguntas(r@) =~= antes.push(con_marca(pv)));
        assert(inicial.take(i + 1) =~= inicial.take(i as int).push(pv));
        assert(buscar_respuesta_inline_spec(inicial.take(i + 1)) =~= buscar_respuesta_inline_spec(
            inicial.take(i as int),
        ).push(con_marca(pv)));
        i += 1;
    }
    assert(inicial.take(i as int) =~= inicial);
    r
}

/// `correcta` written in an option's text, each letter in either case, marks
/// the option.
pub proof fn lema_correcta_marca(t: Seq<char>, i: int)
    requires
        0 <= i,
        i + 8 <= t.len(),
        forall|k: int|
            0 <= k < 8 ==> #[trigger] t[i + k] == seq!['c', 'o', 'r', 'r', 'e', 'c', 't', 'a'][k]
                || t[i + k] == seq!['C', 'O', 'R', 'R', 'E', 'C', 'T', 'A'][k],
    ensures
        tiene_marca(t),
{
    reveal_strlit("correcta");
    let w = "correcta"@;
    assert(w =~= seq!['c', 'o', 'r', 'r', 'e', 'c', 't', 'a']);
    assert forall|k: int| 0 <= k < w.len() implies igual_sin_caso(#[trigger] t[i + k], w[k]) by {
        assert(t[i + k] == seq!['c', 'o', 'r', 'r', 'e', 'c', 't', 'a'][k] || t[i + k] == seq![
            'C',
            'O',
            'R',
            'R',
            'E',
            'C',
            'T',
            'A',
        ][k]);
    }
    assert(coincide_sin_caso(t, i, w));
}

/// A question whose option `j` is marked gets as its answer the letter of its
/// first marked option, which is `j` or one before it.
pub proof fn lema_marca_da_respuesta(p: PreguntaV, j: int)
    requires
        0 <= j < p.opciones.len(),
        tiene_marca(p.opciones[j].texto),
    ensures
        con_marca(p).correcta matches Some(l) && exists|k: int|
            0 <= k <= j && #[trigger] p.opciones[k].letra == l && tiene_marca(p.opciones[k].texto)
                && forall|m: int| 0 <= m < k ==> !tiene_marca(#[trigger] p.opciones[m].texto),
        con_marca(p).num == p.num && con_marca(p).enunciado == p.enunciado && con_marca(p).opciones
            == p.opciones,
{
    lema_primera_marcada(p.opciones, 0);
    lema_antes_de_la_primera(p.opciones, 0);
    let k = primera_marcada(p.opciones, 0)->0;
    if k > j {
        assert(!tiene_marca(p.opciones[j].texto));
    }
    assert(p.opciones[k].letra == con_marca(p).correcta->0);
}

proof fn lema_antes_de_la_primera(os: Seq<OpcionV>, i: int)
    requires
        0 <= i,
    ensures
        primera_marcada(os, i) matches Some(k) ==> forall|m: int|
            i <= m < k ==> !tiene_marca(#[trigger] os[m].texto),
    decreases os.len() - i,
{
    if i < os.len() && !tiene_marca(os[i].texto) {
        lema_antes_de_la_primera(os, i + 1);
    }
}

/// A question none of whose options is marked keeps no answer it did not have.
pub proof fn lema_sin_marca_sin_cambio(p: PreguntaV)
    requires
        forall|k: int| 0 <= k < p.opciones.len() ==> !tiene_marca(#[trigger] p.opciones[k].texto),
    ensures
        con_marca(p) == p,
{
    lema_primera_marcada(p.opciones, 0);
}

} // verus!
