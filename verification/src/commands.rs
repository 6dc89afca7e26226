//! The work behind the application's commands that is not input or output:
//! building a mixed test out of saved tests, telling a document's format from
//! its path, and reading the text of a document into questions.
use vstd::prelude::*;
use vstd::string::StringExecFns;
use vstd::multiset::Multiset;
use crate::parser::{
    Pregunta, PreguntaV, ResultadoParser, ResultadoV, vista_preguntas, alguna_con_respuesta,
};
use crate::barajar::{claves_de_hash, barajado, ordenar_por_claves, orden_por_claves, claves_aleatorias, lema_orden_indices};
use crate::texto::{cadena, caracteres, copiar_rango, lineas, lineas_exec, vistas, anexar};
use crate::parser::{unir, parsear_documento, parsear_documento_spec};
use crate::titulo::ultima_barra;
use crate::clave::clave_posicional_cabe;
use crate::limpieza::limpiar_texto_spec;

verus! {

broadcast use vstd::seq_lib::group_to_multiset_ensures;

/// The decimal digits of `n`.
pub open spec fn decimal(n: nat) -> Seq<char>
    decreases n,
{
    let d = (('0' as u32) + n % 10) as char;
    if n < 10 {
        seq![d]
    } else {
        decimal(n / 10) + seq![d]
    }
}

/// The decimal digits of `n` (`n.to_string()`).
pub fn decimal_exec(n: usize) -> (r: Vec<char>)
    ensures
        r@ == decimal(n as nat),
{
    let mut inversos: Vec<char> = Vec::new();
    let mut m = n;
    let ghost mut resto: nat = n as nat;
    loop
        invariant_except_break
            m as nat == resto,
            decimal(n as nat) == decimal(resto) + inversos@.reverse(),
        ensures
            decimal(n as nat) == inversos@.reverse(),
        decreases m,
    {
        let d = m % 10;
        let c = if d == 0 {
            '0'
        } else if d == 1 {
            '1'
        } else if d == 2 {
            '2'
        } else if d == 3 {
            '3'
        } else if d == 4 {
            '4'
        } else if d == 5 {
            '5'
        } else if d == 6 {
            '6'
        } else if d == 7 {
            '7'
        } else if d == 8 {
            '8'
        } else {
            '9'
        };
        assert(c == (('0' as u32) + resto % 10) as char);
        let ghost antes = inversos@;
        inversos.push(c);
        assert(inversos@.reverse() =~= seq![c] + antes.reverse());
        if m < 10 {
            assert(decimal(resto) == seq![c]);
            assert(decimal(n as nat) =~= inversos@.reverse());
            break;
        }
        assert(decimal(resto) == decimal(resto / 10) + seq![c]);
        m = m / 10;
        proof {
            resto = resto / 10;
        }
        assert(decimal(n as nat) =~= decimal(resto) + inversos@.reverse());
    }
    let mut r: Vec<char> = Vec::new();
    let mut k = inversos.len();
    while k > 0
        invariant
            k <= inversos@.len(),
            r@ == inversos@.reverse().take(inversos@.len() - k),
        decreases k,
    {
        k -= 1;
        r.push(inversos[k]);
        assert(r@ =~= inversos@.reverse().take(inversos@.len() - k));
    }
    assert(r@ =~= inversos@.reverse());
    r
}

pub open spec fn vista_tests(v: Seq<Option<ResultadoParser>>) -> Seq<Option<ResultadoV>> {
    v.map_values(
        |o: Option<ResultadoParser>|
            match o {
                Some(r) => Some(r@),
                None => None,
            },
    )
}

/// What one saved test gives a mix: its questions in the order its keys `c`
/// draw, `por` of them at most; nothing from a test that could not be read.
pub open spec fn seleccion(t: Option<ResultadoV>, c: Seq<u64>, por: u32) -> Seq<PreguntaV> {
    match t {
        Some(r) => {
            let b = barajado(r.preguntas, c);
            if b.len() > por {
                b.take(por as int)
            } else {
                b
            }
        },
        None => Seq::empty(),
    }
}

pub open spec fn selecciones(ts: Seq<Option<ResultadoV>>, cs: Seq<Seq<u64>>, por: u32) -> Seq<
    Seq<PreguntaV>,
> {
    Seq::new(ts.len(), |i: int| seleccion(ts[i], cs[i], por))
}

/// How many of the tests give the mix some question.
pub open spec fn contar_no_vacias(ss: Seq<Seq<PreguntaV>>) -> nat
    decreases ss.len(),
{
    if ss.len() == 0 {
        0
    } else {
        contar_no_vacias(ss.drop_last()) + if ss.last().len() > 0 {
            1nat
        } else {
            0nat
        }
    }
}

/// The questions numbered `1, 2, ...` in their order.
pub open spec fn renumerar(ps: Seq<PreguntaV>) -> Seq<PreguntaV> {
    Seq::new(ps.len(), |i: int| PreguntaV { num: (i + 1) as u32, ..ps[i] })
}

/// There is a key for each question of each test that could be read.
pub open spec fn claves_validas(ts: Seq<Option<ResultadoV>>, cs: Seq<Seq<u64>>) -> bool {
    &&& cs.len() == ts.len()
    &&& forall|i: int| 0 <= i < ts.len() && #[trigger] ts[i] is Some ==> cs[i].len() == ts[i]->0.preguntas.len()
}

pub open spec fn mensaje_pocos_tests() -> Seq<char> {
    "Necesitas al menos 2 tests distintos en el historial para crear una mezcla."@
}

pub open spec fn mensaje_sin_disponibles() -> Seq<char> {
    "Los tests del historial no tienen preguntas disponibles."@
}

pub open spec fn titulo_mezcla(n: nat) -> Seq<char> {
    "Test mezclado ("@ + decimal(n) + " tests)"@
}

/// A mixed test out of saved tests, given the keys that order each test (`cs`)
/// and the mix (`cf`): fewer than two saved tests, or no question to take, is an
/// error; else up to `por` questions of each test, all put in the order `cf`
/// draws and numbered from 1.
pub open spec fn mezclar_spec(ts: Seq<Option<ResultadoV>>, por: u32, cs: Seq<Seq<u64>>, cf: Seq<u64>) -> Result<
    ResultadoV,
    Seq<char>,
> {
    if ts.len() < 2 {
        Err(mensaje_pocos_tests())
    } else {
        let ss = selecciones(ts, cs, por);
        let todas = ss.flatten();
        if todas.len() == 0 {
            Err(mensaje_sin_disponibles())
        } else {
            let ps = renumerar(barajado(todas, cf));
            Ok(
                ResultadoV {
                    titulo: titulo_mezcla(contar_no_vacias(ss)),
                    preguntas: ps,
                    total: ps.len() as usize,
                    con_clave: alguna_con_respuesta(ps),
                },
            )
        }
    }
}

/// The views of questions ordered by keys are the ordered views.
pub proof fn lema_vista_barajado(s: Seq<Pregunta>, c: Seq<u64>)
    ensures
        vista_preguntas(barajado(s, c)) == barajado(vista_preguntas(s), c),
{
    lema_orden_indices(c, s.len() as int);
    assert(vista_preguntas(barajado(s, c)) =~= barajado(vista_preguntas(s), c));
}

/// The questions each saved test gives the mix, concatenated, and how many tests
/// gave some.
fn seleccionar(tests: Vec<Option<ResultadoParser>>, por_test: u32, claves: &Vec<Vec<u64>>) -> (r: (
    Vec<Pregunta>,
    usize,
))
    requires
        claves_validas(vista_tests(tests@), claves@.map_values(|c: Vec<u64>| c@)),
    ensures
        vista_preguntas(r.0@) == selecciones(
            vista_tests(tests@),
            claves@.map_values(|c: Vec<u64>| c@),
            por_test,
        ).flatten(),
        r.1 == contar_no_vacias(
            selecciones(vista_tests(tests@), claves@.map_values(|c: Vec<u64>| c@), por_test),
        ),
        r.1 <= tests@.len(),
{
    let ghost ts = vista_tests(tests@);
    let ghost cs = claves@.map_values(|c: Vec<u64>| c@);
    let ghost ss = selecciones(ts, cs, por_test);
    let n = tests.len();
    let mut resto = tests;
    let mut todas: Vec<Pregunta> = Vec::new();
    let mut num_tests: usize = 0;
    let mut i: usize = 0;
    while resto.len() > 0
        invariant
            n == ts.len(),
            i + resto@.len() == n,
            vista_tests(resto@) == ts.skip(i as int),
            claves_validas(ts, cs),
            cs == claves@.map_values(|c: Vec<u64>| c@),
            ss == selecciones(ts, cs, por_test),
            vista_preguntas(todas@) == ss.take(i as int).flatten(),
            num_tests == contar_no_vacias(ss.take(i as int)),
            num_tests <= i,
        decreases resto@.len(),
    {
        let ghost antes_resto = resto@;
        let t = resto.remove(0);
        assert(resto@ =~= antes_resto.drop_first());
        assert(vista_tests(resto@) =~= vista_tests(antes_resto).drop_first());
        assert(ts.skip(i as int).drop_first() =~= ts.skip(i + 1));
        assert(vista_tests(antes_resto)[0] == ts[i as int]);
        assert(ss.take(i + 1) =~= ss.take(i as int).push(ss[i as int]));
        assert(ss.take(i + 1).drop_last() =~= ss.take(i as int));
        match t {
            Some(res) => {
                let mut ps = res.preguntas;
                assert(cs[i as int] == claves@[i as int]@);
                ordenar_por_claves(&mut ps, &claves[i]);
                let ghost barajadas = vista_preguntas(ps@);
                proof {
                    lema_vista_barajado(res.preguntas@, claves@[i as int]@);
                }
                ps.truncate(por_test as usize);
                assert(vista_preguntas(ps@) =~= ss[i as int]);
                if ps.len() > 0 {
                    num_tests += 1;
                    let ghost antes = vista_preguntas(todas@);
                    todas.append(&mut ps);
                    assert(vista_preguntas(todas@) =~= antes + ss[i as int]);
                } else {
                    assert(ss[i as int] =~= Seq::<PreguntaV>::empty());
                    assert(ss.take(i as int).flatten() + ss[i as int] =~= ss.take(i as int).flatten());
                }
            },
            None => {
                assert(ss[i as int] =~= Seq::<PreguntaV>::empty());
                assert(ss.take(i as int).flatten() + ss[i as int] =~= ss.take(i as int).flatten());
            },
        }
        proof {
            ss.take(i as int).lemma_flatten_push(ss[i as int]);
        }
        i += 1;
    }
    assert(ss.take(i as int) =~= ss);
    (todas, num_tests)
}

/// The mix out of the chosen questions: their order drawn by `claves`, numbered
/// from 1, titled with the number of tests they came from.
fn terminar(todas: Vec<Pregunta>, num_tests: usize, claves: &Vec<u64>) -> (r: Result<
    ResultadoParser,
    String,
>)
    requires
        claves@.len() == todas@.len(),
    ensures
        match r {
            Ok(res) => todas@.len() > 0 && res@ == (ResultadoV {
                titulo: titulo_mezcla(num_tests as nat),
                preguntas: renumerar(barajado(vista_preguntas(todas@), claves@)),
                total: todas@.len() as usize,
                con_clave: alguna_con_respuesta(renumerar(barajado(vista_preguntas(todas@), claves@))),
            }),
            Err(e) => todas@.len() == 0 && e@ == mensaje_sin_disponibles(),
        },
{
    if todas.len() == 0 {
        return Err(String::from_str("Los tests del historial no tienen preguntas disponibles."));
    }
    let ghost inicial = todas@;
    let mut barajadas = todas;
    ordenar_por_claves(&mut barajadas, claves);
    proof {
        lema_vista_barajado(inicial, claves@);
        lema_orden_indices(claves@, inicial.len() as int);
    }
    let ghost b = vista_preguntas(barajadas@);
    let ghost meta = renumerar(b);
    let n = barajadas.len();
    let mut resto = barajadas;
    let mut preguntas: Vec<Pregunta> = Vec::new();
    let mut i: usize = 0;
    while resto.len() > 0
        invariant
            n == b.len(),
            i + resto@.len() == n,
            vista_preguntas(resto@) == b.skip(i as int),
            meta == renumerar(b),
            vista_preguntas(preguntas@) == meta.take(i as int),
        decreases resto@.len(),
    {
        let ghost antes_resto = resto@;
        let mut p = resto.remove(0);
        assert(resto@ =~= antes_resto.drop_first());
        assert(vista_preguntas(resto@) =~= vista_preguntas(antes_resto).drop_first());
        assert(b.skip(i as int).drop_first() =~= b.skip(i + 1));
        assert(vista_preguntas(antes_resto)[0] == b[i as int]);
        let ghost pv = p@;
        p.num = #[verifier::truncate] ((i + 1) as u32);
        assert(p@ == meta[i as int]);
        let ghost antes = vista_preguntas(preguntas@);
        preguntas.push(p);
        assert(vista_preguntas(preguntas@) =~= antes.push(meta[i as int]));
        assert(meta.take(i + 1) =~= meta.take(i as int).push(meta[i as int]));
        i += 1;
    }
    assert(meta.take(i as int) =~= meta);
    let mut con_clave = false;
    let mut k: usize = 0;
    while k < preguntas.len()
        invariant
            k <= preguntas@.len(),
            meta == vista_preguntas(preguntas@),
            con_clave == exists|j: int| 0 <= j < k && (#[trigger] meta[j]).correcta is Some,
        decreases preguntas@.len() - k,
    {
        assert(meta[k as int] == preguntas@[k as int]@);
        assert((meta[k as int].correcta is Some) == (preguntas@[k as int].correcta is Some));
        if preguntas[k].correcta.is_some() {
            con_clave = true;
        }
        k += 1;
    }
    let digitos = cadena(&decimal_exec(num_tests));
    let mut titulo = String::from_str("Test mezclado (");
    titulo.append(digitos.as_str());
    titulo.append(" tests)");
    let total = preguntas.len();
    Ok(ResultadoParser { titulo, preguntas, total, con_clave })
}

/// A mixed test out of saved tests, given the keys that order each test and the
/// mix (`mezclar_spec`).
pub fn mezclar_con_claves(
    tests: Vec<Option<ResultadoParser>>,
    por_test: u32,
    claves_tests: &Vec<Vec<u64>>,
    claves_mezcla: &Vec<u64>,
) -> (r: Result<ResultadoParser, String>)
    requires
        claves_validas(vista_tests(tests@), claves_tests@.map_values(|c: Vec<u64>| c@)),
        claves_mezcla@.len() == selecciones(
            vista_tests(tests@),
            claves_tests@.map_values(|c: Vec<u64>| c@),
            por_test,
        ).flatten().len(),
    ensures
        match r {
            Ok(res) => mezclar_spec(
                vista_tests(tests@),
                por_test,
                claves_tests@.map_values(|c: Vec<u64>| c@),
                claves_mezcla@,
            ) == Ok::<ResultadoV, Seq<char>>(res@),
            Err(e) => mezclar_spec(
                vista_tests(tests@),
                por_test,
                claves_tests@.map_values(|c: Vec<u64>| c@),
                claves_mezcla@,
            ) == Err::<ResultadoV, Seq<char>>(e@),
        },
{
    if tests.len() < 2 {
        return Err(
            String::from_str(
                "Necesitas al menos 2 tests distintos en el historial para crear una mezcla.",
            ),
        );
    }
    let (todas, num_tests) = seleccionar(tests, por_test, claves_tests);
    proof {
        lema_orden_indices(claves_mezcla@, todas@.len() as int);
    }
    terminar(todas, num_tests, claves_mezcla)
}

/// A mixed test out of saved tests (`None` for one that could not be read): up
/// to `por_test` questions drawn at random from each, mixed in an order drawn at
/// random and numbered from 1. The outcome is what `mezclar_spec` gives for some
/// keys, one for each question of each test and one for each question taken.
pub fn construir_test_mezclado(tests: Vec<Option<ResultadoParser>>, por_test: u32) -> (r: Result<
    ResultadoParser,
    String,
>)
    ensures
        exists|cs: Seq<Seq<u64>>, cf: Seq<u64>|
            {
                &&& claves_validas(vista_tests(tests@), cs)
                &&& forall|i: int| 0 <= i < cs.len() ==> claves_de_hash(#[trigger] cs[i])
                &&& (r is Ok ==> claves_de_hash(cf))
                &&& cf.len() == selecciones(vista_tests(tests@), cs, por_test).flatten().len()
                &&& match r {
                    Ok(res) => #[trigger] mezclar_spec(vista_tests(tests@), por_test, cs, cf) == Ok::<
                        ResultadoV,
                        Seq<char>,
                    >(res@),
                    Err(e) => mezclar_spec(vista_tests(tests@), por_test, cs, cf) == Err::<
                        ResultadoV,
                        Seq<char>,
                    >(e@),
                }
            },
{
    let ghost ts = vista_tests(tests@);
    let mut claves: Vec<Vec<u64>> = Vec::new();
    let mut i: usize = 0;
    while i < tests.len()
        invariant
            i <= tests@.len(),
            ts == vista_tests(tests@),
            claves@.len() == i,
            forall|j: int|
                0 <= j < i && #[trigger] ts[j] is Some ==> claves@[j]@.len()
                    == ts[j]->0.preguntas.len(),
            forall|j: int| 0 <= j < i ==> claves_de_hash(#[trigger] claves@[j]@),
        decreases tests@.len() - i,
    {
        let n = match &tests[i] {
            Some(res) => res.preguntas.len(),
            None => 0,
        };
        claves.push(claves_aleatorias(n));
        i += 1;
    }
    let ghost cs = claves@.map_values(|c: Vec<u64>| c@);
    assert(claves_validas(ts, cs));
    if tests.len() < 2 {
        let ghost cf = Seq::new(selecciones(ts, cs, por_test).flatten().len(), |k: int| 0u64);
        assert(mezclar_spec(ts, por_test, cs, cf) == Err::<ResultadoV, Seq<char>>(
            mensaje_pocos_tests(),
        ));
        return Err(
            String::from_str(
                "Necesitas al menos 2 tests distintos en el historial para crear una mezcla.",
            ),
        );
    }
    let (todas, num_tests) = seleccionar(tests, por_test, &claves);
    let claves_mezcla = claves_aleatorias(todas.len());
    proof {
        lema_orden_indices(claves_mezcla@, todas@.len() as int);
    }
    let r = terminar(todas, num_tests, &claves_mezcla);
    assert(match r {
        Ok(res) => mezclar_spec(ts, por_test, cs, claves_mezcla@) == Ok::<ResultadoV, Seq<char>>(
            res@,
        ),
        Err(e) => mezclar_spec(ts, por_test, cs, claves_mezcla@) == Err::<ResultadoV, Seq<char>>(
            e@,
        ),
    });
    r
}

/// How many questions a saved test gives a mix: `por` at most.
pub open spec fn tomadas(t: Option<ResultadoV>, por: u32) -> nat {
    match t {
        Some(r) => if r.preguntas.len() > por {
            por as nat
        } else {
            r.preguntas.len()
        },
        None => 0,
    }
}

pub open spec fn suma_tomadas(ts: Seq<Option<ResultadoV>>, por: u32) -> nat
    decreases ts.len(),
{
    if ts.len() == 0 {
        0
    } else {
        suma_tomadas(ts.drop_last(), por) + tomadas(ts.last(), por)
    }
}

/// How many saved tests give a mix some question.
pub open spec fn tests_que_aportan(ts: Seq<Option<ResultadoV>>, por: u32) -> nat
    decreases ts.len(),
{
    if ts.len() == 0 {
        0
    } else {
        tests_que_aportan(ts.drop_last(), por) + if tomadas(ts.last(), por) > 0 {
            1nat
        } else {
            0nat
        }
    }
}

proof fn lema_seleccion_largo(t: Option<ResultadoV>, c: Seq<u64>, por: u32)
    requires
        t is Some ==> c.len() == t->0.preguntas.len(),
    ensures
        seleccion(t, c, por).len() == tomadas(t, por),
{
    match t {
        Some(r) => {
            lema_orden_indices(c, r.preguntas.len() as int);
        },
        None => {},
    }
}

proof fn lema_selecciones(ts: Seq<Option<ResultadoV>>, cs: Seq<Seq<u64>>, por: u32, i: int)
    requires
        claves_validas(ts, cs),
        0 <= i <= ts.len(),
    ensures
        selecciones(ts, cs, por).take(i).flatten().len() == suma_tomadas(ts.take(i), por),
        contar_no_vacias(selecciones(ts, cs, por).take(i)) == tests_que_aportan(ts.take(i), por),
    decreases i,
{
    let ss = selecciones(ts, cs, por);
    if i > 0 {
        lema_selecciones(ts, cs, por, i - 1);
        lema_seleccion_largo(ts[i - 1], cs[i - 1], por);
        assert(ss.take(i) =~= ss.take(i - 1).push(ss[i - 1]));
        ss.take(i - 1).lemma_flatten_push(ss[i - 1]);
        assert(ss.take(i).drop_last() =~= ss.take(i - 1));
        assert(ts.take(i).drop_last() =~= ts.take(i - 1));
    } else {
        assert(ss.take(0) =~= Seq::<Seq<PreguntaV>>::empty());
        assert(ts.take(0) =~= Seq::<Option<ResultadoV>>::empty());
    }
}

/// What a mix promises, whatever keys drew its orders: fewer than two saved tests
/// is the first error, no question to take the second; else the mix has as many
/// questions as the tests give (`por` of each at most), numbered 1, 2, ... in
/// order, `total` their number, `con_clave` whether any has its answer, and a
/// title that counts the tests that gave some.
pub proof fn lema_mezcla(ts: Seq<Option<ResultadoV>>, por: u32, cs: Seq<Seq<u64>>, cf: Seq<u64>)
    requires
        claves_validas(ts, cs),
        cf.len() == selecciones(ts, cs, por).flatten().len(),
    ensures
        ts.len() < 2 ==> mezclar_spec(ts, por, cs, cf) == Err::<ResultadoV, Seq<char>>(
            mensaje_pocos_tests(),
        ),
        ts.len() >= 2 && suma_tomadas(ts, por) == 0 ==> mezclar_spec(ts, por, cs, cf) == Err::<
            ResultadoV,
            Seq<char>,
        >(mensaje_sin_disponibles()),
        mezclar_spec(ts, por, cs, cf) matches Ok(r) ==> {
            &&& ts.len() >= 2
            &&& r.preguntas.len() == suma_tomadas(ts, por)
            &&& r.preguntas.len() > 0
            &&& r.total == r.preguntas.len() as usize
            &&& forall|i: int| 0 <= i < r.preguntas.len() ==> (#[trigger] r.preguntas[i]).num == (i
                + 1) as u32
            &&& r.con_clave == alguna_con_respuesta(r.preguntas)
            &&& r.titulo == titulo_mezcla(tests_que_aportan(ts, por))
        },
{
    lema_selecciones(ts, cs, por, ts.len() as int);
    assert(selecciones(ts, cs, por).take(ts.len() as int) =~= selecciones(ts, cs, por));
    assert(ts.take(ts.len() as int) =~= ts);
    let todas = selecciones(ts, cs, por).flatten();
    lema_orden_indices(cf, todas.len() as int);
}

/// The question `q` is one of a saved test's, but for its number.
pub open spec fn viene_de(q: PreguntaV, ts: Seq<Option<ResultadoV>>) -> bool {
    exists|t: int, k: int|
        0 <= t < ts.len() && ts[t] is Some && 0 <= k < ts[t]->0.preguntas.len() && q == (
        PreguntaV { num: q.num, ..#[trigger] ts[t]->0.preguntas[k] })
}

proof fn lema_aplanado(ss: Seq<Seq<PreguntaV>>, m: int)
    requires
        0 <= m < ss.flatten().len(),
    ensures
        exists|t: int, k: int| 0 <= t < ss.len() && 0 <= k < ss[t].len() && ss.flatten()[m] == #[trigger] ss[t][k],
    decreases ss.len(),
{
    if ss.len() > 0 {
        let a = ss.drop_last();
        assert(a.push(ss.last()) =~= ss);
        a.lemma_flatten_push(ss.last());
        if m < a.flatten().len() {
            lema_aplanado(a, m);
            let (t, k) = choose|t: int, k: int| 0 <= t < a.len() && 0 <= k < a[t].len() && a.flatten()[m] == #[trigger] a[t][k];
            assert(ss[t] == a[t]);
        } else {
            let k = m - a.flatten().len();
            assert(ss.flatten()[m] == ss[ss.len() - 1][k]);
        }
    }
}

/// Every question of a mix is a question of one of the saved tests, renumbered.
pub proof fn lema_mezcla_de_los_tests(ts: Seq<Option<ResultadoV>>, por: u32, cs: Seq<Seq<u64>>, cf: Seq<u64>)
    requires
        claves_validas(ts, cs),
        cf.len() == selecciones(ts, cs, por).flatten().len(),
    ensures
        mezclar_spec(ts, por, cs, cf) matches Ok(r) ==> forall|i: int|
            0 <= i < r.preguntas.len() ==> viene_de(#[trigger] r.preguntas[i], ts),
{
    let ss = selecciones(ts, cs, por);
    let todas = ss.flatten();
    lema_orden_indices(cf, todas.len() as int);
    if ts.len() >= 2 && todas.len() > 0 {
        let ps = renumerar(barajado(todas, cf));
        assert forall|i: int| 0 <= i < ps.len() implies viene_de(#[trigger] ps[i], ts) by {
            let m = orden_por_claves(cf, todas.len() as int)[i];
            assert(0 <= m < todas.len());
            lema_aplanado(ss, m);
            let (t, k) = choose|t: int, k: int| 0 <= t < ss.len() && 0 <= k < ss[t].len() && todas[m] == #[trigger] ss[t][k];
            let r = ts[t]->0;
            lema_orden_indices(cs[t], r.preguntas.len() as int);
            let j = orden_por_claves(cs[t], r.preguntas.len() as int)[k];
            assert(ss[t][k] == r.preguntas[j]);
            assert(ps[i] == PreguntaV { num: ps[i].num, ..ts[t]->0.preguntas[j] });
        }
    }
}

/// The formats of documents the application reads, by the ending of their path.
#[derive(Debug, Clone, Copy)]
pub enum Formato {
    Pdf,
    Docx,
    Doc,
    Odt,
    Desconocido,
}

/// `c` is `x`, or its upper-case ASCII form: what `to_lowercase` turns into `x`
/// for the ASCII letters and punctuation of file endings.
pub open spec fn igual_minuscula(c: char, x: char) -> bool {
    c == x || ('A' <= c <= 'Z' && (c as u32) + 32 == (x as u32))
}

/// `s.to_lowercase().ends_with(w)` for a lower-case ASCII ending `w`: no
/// character but an ASCII letter lowercases into the letters of a file ending.
pub open spec fn termina_en(s: Seq<char>, w: Seq<char>) -> bool {
    &&& w.len() <= s.len()
    &&& forall|k: int| 0 <= k < w.len() ==> igual_minuscula(#[trigger] s[s.len() - w.len() + k], w[k])
}

pub open spec fn formato_spec(ruta: Seq<char>) -> Formato {
    if termina_en(ruta, ".pdf"@) {
        Formato::Pdf
    } else if termina_en(ruta, ".docx"@) {
        Formato::Docx
    } else if termina_en(ruta, ".doc"@) {
        Formato::Doc
    } else if termina_en(ruta, ".odt"@) || termina_en(ruta, ".odf"@) {
        Formato::Odt
    } else {
        Formato::Desconocido
    }
}

fn termina_en_exec(s: &Vec<char>, w: &str) -> (r: bool)
    ensures
        r == termina_en(s@, w@),
{
    let v = caracteres(w);
    if v.len() > s.len() {
        return false;
    }
    let base = s.len() - v.len();
    let largo = s.len();
    let mut k: usize = 0;
    while k < v.len()
        invariant
            largo == s@.len(),
            v@ == w@,
            base == s@.len() - v@.len(),
            k <= v@.len(),
            forall|j: int| 0 <= j < k ==> igual_minuscula(#[trigger] s@[s@.len() - v@.len() + j], v@[j]),
        decreases v@.len() - k,
    {
        let c = s[base + k];
        let x = v[k];
        if !(c == x || ('A' <= c && c <= 'Z' && (c as u32) + 32 == (x as u32))) {
            return false;
        }
        k += 1;
    }
    true
}

/// The format of the document at `ruta`, told by the ending of the path, case
/// ignored.
pub fn formato_de_ruta(ruta: &str) -> (f: Formato)
    ensures
        f == formato_spec(ruta@),
{
    let s = caracteres(ruta);
    if termina_en_exec(&s, ".pdf") {
        Formato::Pdf
    } else if termina_en_exec(&s, ".docx") {
        Formato::Docx
    } else if termina_en_exec(&s, ".doc") {
        Formato::Doc
    } else if termina_en_exec(&s, ".odt") || termina_en_exec(&s, ".odf") {
        Formato::Odt
    } else {
        Formato::Desconocido
    }
}

pub open spec fn mensaje_doc() -> Seq<char> {
    "El formato .doc (Word 97-2003) no está soportado directamente.\n\nÁbrelo en Word o LibreOffice y guárdalo como .docx, luego vuelve a intentarlo."@
}

pub open spec fn mensaje_formato_para_procesar() -> Seq<char> {
    "Formato no soportado. Usa PDF, .docx o .odt"@
}

pub open spec fn mensaje_formato_para_extraer() -> Seq<char> {
    "Formato no soportado"@
}

/// The format of a document to read into questions: PDF, Word or OpenDocument;
/// an old Word document, or any other path, is refused with its message.
pub fn formato_para_procesar(ruta: &str) -> (r: Result<Formato, String>)
    ensures
        match formato_spec(ruta@) {
            Formato::Doc => r matches Err(e) && e@ == mensaje_doc(),
            Formato::Desconocido => r matches Err(e) && e@ == mensaje_formato_para_procesar(),
            f => r == Ok::<Formato, String>(f),
        },
{
    match formato_de_ruta(ruta) {
        Formato::Doc => Err(
            String::from_str(
                "El formato .doc (Word 97-2003) no está soportado directamente.\n\nÁbrelo en Word o LibreOffice y guárdalo como .docx, luego vuelve a intentarlo.",
            ),
        ),
        Formato::Desconocido => Err(String::from_str("Formato no soportado. Usa PDF, .docx o .odt")),
        f => Ok(f),
    }
}

/// The format of a document whose text is wanted: PDF, Word or OpenDocument;
/// any other path is refused.
pub fn formato_para_extraer(ruta: &str) -> (r: Result<Formato, String>)
    ensures
        match formato_spec(ruta@) {
            Formato::Doc | Formato::Desconocido => r matches Err(e) && e@ == mensaje_formato_para_extraer(),
            f => r == Ok::<Formato, String>(f),
        },
{
    match formato_de_ruta(ruta) {
        Formato::Doc | Formato::Desconocido => Err(String::from_str("Formato no soportado")),
        f => Ok(f),
    }
}

/// The last part of a path (`rsplit('/').next()`).
pub open spec fn nombre_de_ruta_spec(ruta: Seq<char>) -> Seq<char> {
    ruta.skip(ultima_barra(ruta, ruta.len() as int) + 1)
}

pub fn nombre_de_ruta(ruta: &str) -> (r: Vec<char>)
    ensures
        r@ == nombre_de_ruta_spec(ruta@),
{
    let s = caracteres(ruta);
    let largo = s.len();
    let mut j = largo;
    while j > 0 && s[j - 1] != '/'
        invariant
            j <= largo == s@.len(),
            s@ == ruta@,
            ultima_barra(s@, largo as int) == ultima_barra(s@, j as int),
        decreases j,
    {
        j -= 1;
    }
    let r = copiar_rango(&s, j, largo);
    assert(r@ =~= s@.skip(ultima_barra(s@, largo as int) + 1));
    r
}

/// The first twenty lines of a text, joined by line breaks.
pub open spec fn vista_previa(texto: Seq<char>) -> Seq<char> {
    let ls = lineas(texto);
    unir(if ls.len() > 20 { ls.take(20) } else { ls }, '\n')
}

pub open spec fn mensaje_error_lectura(e: Seq<char>, texto: Seq<char>) -> Seq<char> {
    e + "\n\n--- Texto extraído (primeras 20 líneas) ---\n"@ + vista_previa(texto)
}

/// The questions of the text of the document at `ruta`, read as
/// `parsear_documento` reads them under the last part of the path; a failure's
/// message followed by the first twenty lines of the text.
pub fn procesar_texto(texto: &str, ruta: &str) -> (r: Result<ResultadoParser, String>)
    requires
        clave_posicional_cabe(limpiar_texto_spec(texto@)),
    ensures
        match r {
            Ok(res) => parsear_documento_spec(texto@, nombre_de_ruta_spec(ruta@)) == Ok::<
                ResultadoV,
                Seq<char>,
            >(res@),
            Err(e) => match parsear_documento_spec(texto@, nombre_de_ruta_spec(ruta@)) {
                Err(m) => e@ == mensaje_error_lectura(m, texto@),
                Ok(_) => false,
            },
        },
{
    let nombre = cadena(&nombre_de_ruta(ruta));
    match parsear_documento(texto, nombre.as_str()) {
        Ok(res) => Ok(res),
        Err(e) => {
            let t = caracteres(texto);
            let ls = lineas_exec(&t);
            let n = if ls.len() > 20 {
                20
            } else {
                ls.len()
            };
            let ghost elegidas = if vistas(ls@).len() > 20 {
                vistas(ls@).take(20)
            } else {
                vistas(ls@)
            };
            let mut previa: Vec<char> = Vec::new();
            let mut k: usize = 0;
            while k < n
                invariant
                    k <= n <= ls@.len(),
                    elegidas.len() == n,
                    forall|j: int| 0 <= j < n ==> elegidas[j] == (#[trigger] ls@[j])@,
                    previa@ == unir(elegidas.take(k as int), '\n'),
                decreases n - k,
            {
                assert(elegidas.take(k + 1).drop_last() =~= elegidas.take(k as int));
                assert(elegidas[k as int] == ls@[k as int]@);
                if k > 0 {
                    previa.push('\n');
                }
                anexar(&mut previa, &ls[k]);
                proof {
                    if k == 0 {
                        assert(previa@ =~= unir(elegidas.take(1), '\n'));
                    } else {
                        assert(previa@ =~= unir(elegidas.take(k as int), '\n') + seq!['\n']
                            + elegidas[k as int]);
                    }
                }
                k += 1;
            }
            assert(elegidas.take(n as int) =~= elegidas);
            let mut mensaje = e;
            mensaje.append("\n\n--- Texto extraído (primeras 20 líneas) ---\n");
            let cola = cadena(&previa);
            mensaje.append(cola.as_str());
            Err(mensaje)
        },
    }
}

/// A question without its number.
pub open spec fn sin_numero(p: PreguntaV) -> PreguntaV {
    PreguntaV { num: 0, ..p }
}

pub open spec fn sin_numeros(ps: Seq<PreguntaV>) -> Seq<PreguntaV> {
    ps.map_values(|p: PreguntaV| sin_numero(p))
}

/// The questions of a saved test; none of one that could not be read.
pub open spec fn preguntas_de(t: Option<ResultadoV>) -> Seq<PreguntaV> {
    match t {
        Some(r) => r.preguntas,
        None => Seq::empty(),
    }
}

/// The multisets of the sequences, added up.
pub open spec fn suma_multiconjuntos(ss: Seq<Seq<PreguntaV>>) -> Multiset<PreguntaV>
    decreases ss.len(),
{
    if ss.len() == 0 {
        Multiset::empty()
    } else {
        suma_multiconjuntos(ss.drop_last()).add(ss.last().to_multiset())
    }
}

proof fn lema_aplanado_multiconjunto(ss: Seq<Seq<PreguntaV>>)
    ensures
        ss.flatten().to_multiset() == suma_multiconjuntos(ss),
    decreases ss.len(),
{
    broadcast use vstd::multiset::group_multiset_axioms;

    if ss.len() == 0 {
        assert(ss.flatten() =~= Seq::<PreguntaV>::empty());
    } else {
        let a = ss.drop_last();
        lema_aplanado_multiconjunto(a);
        assert(a.push(ss.last()) =~= ss);
        a.lemma_flatten_push(ss.last());
        vstd::seq_lib::lemma_multiset_commutative(a.flatten(), ss.last());
    }
}

proof fn lema_tomar_submulticonjunto(x: Seq<PreguntaV>, k: int)
    requires
        0 <= k <= x.len(),
    ensures
        x.take(k).to_multiset().subset_of(x.to_multiset()),
{
    broadcast use vstd::multiset::group_multiset_axioms;

    assert(x =~= x.take(k) + x.skip(k));
    vstd::seq_lib::lemma_multiset_commutative(x.take(k), x.skip(k));
}

/// What a mix takes of each saved test is some of its questions, as many as
/// `por` allows and each at most as often as the test has it; and the mix,
/// numbers aside, is those questions together, each taken once.
pub proof fn lema_mezcla_multiconjunto(ts: Seq<Option<ResultadoV>>, por: u32, cs: Seq<Seq<u64>>, cf: Seq<u64>)
    requires
        claves_validas(ts, cs),
        cf.len() == selecciones(ts, cs, por).flatten().len(),
    ensures
        forall|i: int|
            0 <= i < ts.len() ==> (#[trigger] seleccion(ts[i], cs[i], por)).to_multiset().subset_of(
                preguntas_de(ts[i]).to_multiset(),
            ) && seleccion(ts[i], cs[i], por).len() == tomadas(ts[i], por),
        selecciones(ts, cs, por).flatten().to_multiset() == suma_multiconjuntos(
            selecciones(ts, cs, por),
        ),
        mezclar_spec(ts, por, cs, cf) matches Ok(r) ==> sin_numeros(r.preguntas).to_multiset()
            == sin_numeros(selecciones(ts, cs, por).flatten()).to_multiset(),
{
    assert forall|i: int| 0 <= i < ts.len() implies (#[trigger] seleccion(ts[i], cs[i], por)).to_multiset().subset_of(
        preguntas_de(ts[i]).to_multiset(),
    ) && seleccion(ts[i], cs[i], por).len() == tomadas(ts[i], por) by {
        match ts[i] {
            Some(t) => {
                crate::barajar::lema_barajado_multiconjunto(t.preguntas, cs[i]);
                let b = barajado(t.preguntas, cs[i]);
                if b.len() > por {
                    lema_tomar_submulticonjunto(b, por as int);
                } else {
                    assert(b.to_multiset().subset_of(t.preguntas.to_multiset()));
                }
            },
            None => {
                assert(Seq::<PreguntaV>::empty().to_multiset() =~= Multiset::empty());
            },
        }
    }
    let ss = selecciones(ts, cs, por);
    lema_aplanado_multiconjunto(ss);
    let todas = ss.flatten();
    if ts.len() >= 2 && todas.len() > 0 {
        let b = barajado(todas, cf);
        lema_orden_indices(cf, todas.len() as int);
        assert(sin_numeros(renumerar(b)) =~= sin_numeros(b));
        assert(sin_numeros(b) =~= barajado(sin_numeros(todas), cf));
        crate::barajar::lema_barajado_multiconjunto(sin_numeros(todas), cf);
    }
}

} // verus!
