//! The title of a test: the first line of its document, or else the name of
//! its file without folder and extension.
use vstd::prelude::*;
use crate::texto::{
    racha, contar_racha, Clase, recortar, recortar_exec, lineas, lineas_exec, vistas,
    copiar_rango, coincide_en, coincide_en_exec, caracteres, es_espacio, lema_recortar_en_blanco,
};
use crate::limpieza::{largo_utf8, supera_bytes};

verus! {

/// The first line from `j` on that is not blank.
pub open spec fn primera_no_vacia(ls: Seq<Seq<char>>, j: int) -> Option<Seq<char>>
    decreases ls.len() - j,
{
    if j < 0 || j >= ls.len() {
        None
    } else if recortar(ls[j]).len() > 0 {
        Some(ls[j])
    } else {
        primera_no_vacia(ls, j + 1)
    }
}

/// `^\d{1,3}[\.\)]`: the line starts as a question does.
pub open spec fn empieza_numerada(l: Seq<char>) -> bool {
    let r = racha(l, 0, Clase::Digito) as int;
    1 <= r <= 3 && r < l.len() && (l[r] == '.' || l[r] == ')')
}

/// The index of the last `/` of `s` before `j`, or -1.
pub open spec fn ultima_barra(s: Seq<char>, j: int) -> int
    decreases j,
{
    if j <= 0 || j > s.len() {
        -1
    } else if s[j - 1] == '/' {
        j - 1
    } else {
        ultima_barra(s, j - 1)
    }
}

/// `str::trim_end_matches`: `s` without every repetition of `p` at its end.
pub open spec fn quitar_sufijos(s: Seq<char>, p: Seq<char>) -> Seq<char>
    decreases s.len(),
{
    if p.len() > 0 && p.len() <= s.len() && coincide_en(s, s.len() - p.len(), p) {
        quitar_sufijos(s.take(s.len() - p.len()), p)
    } else {
        s
    }
}

/// The name of a file without its folders (`rsplit('/').next()`) and without
/// the endings `.pdf`, `.docx` and `.doc`, each removed as often as it repeats.
pub open spec fn nombre_sin_extension(nombre: Seq<char>) -> Seq<char> {
    let base = nombre.skip(ultima_barra(nombre, nombre.len() as int) + 1);
    quitar_sufijos(quitar_sufijos(quitar_sufijos(base, ".pdf"@), ".docx"@), ".doc"@)
}

/// The first line that is not blank, trimmed, if it is shorter than 120 bytes
/// and does not open a question; else the file's name without its folder and
/// extension.
pub open spec fn inferir_titulo_spec(texto: Seq<char>, nombre: Seq<char>) -> Seq<char> {
    match primera_no_vacia(lineas(texto), 0) {
        Some(l) => {
            let p = recortar(l);
            if largo_utf8(p) < 120 && !empieza_numerada(p) {
                p
            } else {
                nombre_sin_extension(nombre)
            }
        },
        None => nombre_sin_extension(nombre),
    }
}

fn quitar_sufijos_exec(entrada: Vec<char>, p: &Vec<char>) -> (r: Vec<char>)
    requires
        p@.len() > 0,
    ensures
        r@ == quitar_sufijos(entrada@, p@),
{
    let ghost s0 = entrada@;
    let mut s = entrada;
    loop
        invariant
            p@.len() > 0,
            quitar_sufijos(s@, p@) == quitar_sufijos(s0, p@),
            s0 == entrada@,
        decreases s@.len(),
    {
        if p.len() <= s.len() && coincide_en_exec(&s, s.len() - p.len(), p) {
            let corto = copiar_rango(&s, 0, s.len() - p.len());
            s = corto;
        } else {
            assert(quitar_sufijos(s@, p@) == s@);
            return s;
        }
    }
}

fn nombre_sin_extension_exec(nombre: &Vec<char>) -> (r: Vec<char>)
    ensures
        r@ == nombre_sin_extension(nombre@),
{
    let largo = nombre.len();
    let mut j = largo;
    while j > 0 && nombre[j - 1] != '/'
        invariant
            j <= largo == nombre@.len(),
            ultima_barra(nombre@, largo as int) == ultima_barra(nombre@, j as int),
        decreases j,
    {
        j -= 1;
    }
    let base = copiar_rango(nombre, j, largo);
    assert(base@ =~= nombre@.skip(ultima_barra(nombre@, largo as int) + 1));
    let pdf = caracteres(".pdf");
    let docx = caracteres(".docx");
    let doc = caracteres(".doc");
    proof {
        reveal_strlit(".pdf");
        reveal_strlit(".docx");
        reveal_strlit(".doc");
    }
    let a = quitar_sufijos_exec(base, &pdf);
    let b = quitar_sufijos_exec(a, &docx);
    quitar_sufijos_exec(b, &doc)
}

fn empieza_numerada_exec(l: &Vec<char>) -> (r: bool)
    ensures
        r == empieza_numerada(l@),
{
    let largo = l.len();
    let r = contar_racha(l, 0, Clase::Digito);
    1 <= r && r <= 3 && r < largo && (l[r] == '.' || l[r] == ')')
}

/// The title of a test read from `texto`, a file named `nombre` (`inferir_titulo_spec`).
pub fn inferir_titulo(texto: &Vec<char>, nombre: &Vec<char>) -> (r: Vec<char>)
    ensures
        r@ == inferir_titulo_spec(texto@, nombre@),
{
    let ls = lineas_exec(texto);
    let ghost vl = vistas(ls@);
    let mut j: usize = 0;
    while j < ls.len()
        invariant
            j <= ls@.len(),
            vl == vistas(ls@),
            vl == lineas(texto@),
            primera_no_vacia(vl, 0) == primera_no_vacia(vl, j as int),
        decreases ls@.len() - j,
    {
        assert(vl[j as int] == ls@[j as int]@);
        let p = recortar_exec(&ls[j]);
        if p.len() > 0 {
            if !supera_bytes(&p, 119) && !empieza_numerada_exec(&p) {
                return p;
            }
            return nombre_sin_extension_exec(nombre);
        }
        j += 1;
    }
    nombre_sin_extension_exec(nombre)
}

/// The title is the first line that is not blank, trimmed, where it is shorter
/// than 120 bytes and does not open a question: blank lines before it are
/// skipped.
pub proof fn lema_titulo_primera_linea(texto: Seq<char>, nombre: Seq<char>, j: int)
    requires
        0 <= j < lineas(texto).len(),
        forall|k: int, m: int|
            0 <= k < j && 0 <= m < lineas(texto)[k].len() ==> es_espacio(
                #[trigger] lineas(texto)[k][m],
            ),
        exists|m: int| 0 <= m < lineas(texto)[j].len() && !es_espacio(#[trigger] lineas(texto)[j][m]),
        largo_utf8(recortar(lineas(texto)[j])) < 120,
        !empieza_numerada(recortar(lineas(texto)[j])),
    ensures
        inferir_titulo_spec(texto, nombre) == recortar(lineas(texto)[j]),
        inferir_titulo_spec(texto, nombre).len() > 0,
{
    let ls = lineas(texto);
    lema_primera_no_vacia(ls, 0, j);
}

proof fn lema_primera_no_vacia(ls: Seq<Seq<char>>, i: int, j: int)
    requires
        0 <= i <= j < ls.len(),
        forall|k: int, m: int| 0 <= k < j && 0 <= m < ls[k].len() ==> es_espacio(#[trigger] ls[k][m]),
        exists|m: int| 0 <= m < ls[j].len() && !es_espacio(#[trigger] ls[j][m]),
    ensures
        primera_no_vacia(ls, i) == Some(ls[j]),
        recortar(ls[j]).len() > 0,
    decreases j - i,
{
    lema_recortar_en_blanco(ls[j]);
    lema_recortar_en_blanco(ls[i]);
    if i < j {
        assert forall|m: int| 0 <= m < ls[i].len() implies es_espacio(#[trigger] ls[i][m]) by {
            assert(es_espacio(ls[i][m]));
        }
        lema_primera_no_vacia(ls, i + 1, j);
    }
}

} // verus!
