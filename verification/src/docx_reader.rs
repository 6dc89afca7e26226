//! The plain text of the XML of a Word document (`word/document.xml`).
use vstd::prelude::*;
use crate::texto::{
    racha, lema_racha_acotada, contar_racha, Clase, reemplazar, reemplazar_exec, recortar,
    recortar_exec, caracteres, cadena,
};
use crate::limpieza::{
    compactar_saltos_desde, compactar_saltos, lema_compactar_y_recortar, sin_tres_saltos,
};

verus! {

/// `<[^>]+>` at `i`: where the tag that starts there ends, if one does.
pub open spec fn etiqueta_en(s: Seq<char>, i: int) -> Option<int> {
    let n = racha(s, i + 1, Clase::NoCierre);
    if 0 <= i < s.len() && s[i] == '<' && n >= 1 && i + 1 + n < s.len() {
        Some(i + 2 + n)
    } else {
        None
    }
}

/// Every tag `<...>` from `i` on removed.
pub open spec fn quitar_etiquetas_desde(s: Seq<char>, i: int) -> Seq<char>
    decreases s.len() - i,
{
    if i < 0 || i >= s.len() {
        Seq::empty()
    } else {
        match etiqueta_en(s, i) {
            Some(e) => quitar_etiquetas_desde(s, e),
            None => seq![s[i]] + quitar_etiquetas_desde(s, i + 1),
        }
    }
}

/// The XML entities `&lt;`, `&gt;`, `&amp;`, `&apos;`, `&quot;` and `&#xD;`
/// replaced, one after the other, by what they stand for.
pub open spec fn decodificar_entidades(s: Seq<char>) -> Seq<char> {
    let a = reemplazar(s, "&lt;"@, "<"@);
    let b = reemplazar(a, "&gt;"@, ">"@);
    let c = reemplazar(b, "&amp;"@, "&"@);
    let d = reemplazar(c, "&apos;"@, "'"@);
    let e = reemplazar(d, "&quot;"@, "\""@);
    reemplazar(e, "&#xD;"@, "\n"@)
}

/// The text of a document's XML: a line break before each paragraph and for each
/// break element, the tags removed, the entities decoded, runs of three or more
/// line breaks made two, and the whole trimmed.
pub open spec fn xml_a_texto(xml: Seq<char>) -> Seq<char> {
    let a = reemplazar(xml, "<w:p "@, "\n<w:p "@);
    let b = reemplazar(a, "<w:p>"@, "\n<w:p>"@);
    let c = reemplazar(b, "<w:br/>"@, "\n"@);
    let d = reemplazar(c, "<w:br />"@, "\n"@);
    let e = quitar_etiquetas_desde(d, 0);
    recortar(compactar_saltos_desde(decodificar_entidades(e), 0, 3))
}

pub fn quitar_etiquetas(t: &Vec<char>) -> (r: Vec<char>)
    ensures
        r@ == quitar_etiquetas_desde(t@, 0),
{
    let largo = t.len();
    let mut r: Vec<char> = Vec::new();
    let mut i: usize = 0;
    while i < largo
        invariant
            largo == t@.len(),
            i <= t@.len(),
            r@ + quitar_etiquetas_desde(t@, i as int) == quitar_etiquetas_desde(t@, 0),
        decreases t@.len() - i,
    {
        let ghost antes = r@;
        let mut fin: usize = 0;
        if t[i] == '<' {
            let n = contar_racha(t, i + 1, Clase::NoCierre);
            if n >= 1 && largo - (i + 1) > n {
                fin = i + 2 + n;
            }
        }
        if fin > 0 {
            assert(etiqueta_en(t@, i as int) == Some(fin as int));
            i = fin;
        } else {
            assert(etiqueta_en(t@, i as int) is None);
            r.push(t[i]);
            assert(antes + (seq![t@[i as int]] + quitar_etiquetas_desde(t@, i + 1)) =~= r@
                + quitar_etiquetas_desde(t@, i + 1));
            i += 1;
        }
    }
    assert(r@ + quitar_etiquetas_desde(t@, i as int) =~= r@);
    r
}

/// Replaces every `patron` in `t` by `por`.
pub fn reemplazar_literal(t: &Vec<char>, patron: &str, por: &str) -> (r: Vec<char>)
    requires
        patron@.len() > 0,
    ensures
        r@ == reemplazar(t@, patron@, por@),
{
    let p = caracteres(patron);
    let q = caracteres(por);
    reemplazar_exec(t, &p, &q)
}

pub fn decodificar_entidades_exec(t: &Vec<char>) -> (r: Vec<char>)
    ensures
        r@ == decodificar_entidades(t@),
{
    proof {
        reveal_strlit("&lt;");
        reveal_strlit("&gt;");
        reveal_strlit("&amp;");
        reveal_strlit("&apos;");
        reveal_strlit("&quot;");
        reveal_strlit("&#xD;");
    }
    let a = reemplazar_literal(t, "&lt;", "<");
    let b = reemplazar_literal(&a, "&gt;", ">");
    let c = reemplazar_literal(&b, "&amp;", "&");
    let d = reemplazar_literal(&c, "&apos;", "'");
    let e = reemplazar_literal(&d, "&quot;", "\"");
    reemplazar_literal(&e, "&#xD;", "\n")
}

/// The plain text of the XML of a Word document (`xml_a_texto`).
pub fn xml_a_texto_plano(xml: &str) -> (r: String)
    ensures
        r@ == xml_a_texto(xml@),
{
    proof {
        reveal_strlit("<w:p ");
        reveal_strlit("<w:p>");
        reveal_strlit("<w:br/>");
        reveal_strlit("<w:br />");
    }
    let t = caracteres(xml);
    let a = reemplazar_literal(&t, "<w:p ", "\n<w:p ");
    let b = reemplazar_literal(&a, "<w:p>", "\n<w:p>");
    let c = reemplazar_literal(&b, "<w:br/>", "\n");
    let d = reemplazar_literal(&c, "<w:br />", "\n");
    let e = quitar_etiquetas(&d);
    let f = decodificar_entidades_exec(&e);
    let g = compactar_saltos(&f, 3);
    cadena(&recortar_exec(&g))
}

/// The text of a Word document is trimmed and never holds three line breaks in a row.
pub proof fn lema_texto_plano(xml: Seq<char>)
    ensures
        recortar(xml_a_texto(xml)) == xml_a_texto(xml),
        sin_tres_saltos(xml_a_texto(xml)),
{
    let a = reemplazar(xml, "<w:p "@, "\n<w:p "@);
    let b = reemplazar(a, "<w:p>"@, "\n<w:p>"@);
    let c = reemplazar(b, "<w:br/>"@, "\n"@);
    let d = reemplazar(c, "<w:br />"@, "\n"@);
    let e = quitar_etiquetas_desde(d, 0);
    lema_compactar_y_recortar(decodificar_entidades(e));
}

} // verus!
