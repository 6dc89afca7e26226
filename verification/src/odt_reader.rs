//! The plain text of the XML of an OpenDocument text (`content.xml`).
use vstd::prelude::*;
use crate::texto::{
    racha, contar_racha, Clase, reemplazar, recortar, recortar_exec, caracteres, cadena,
    coincide_en, coincide_en_exec,
};
use crate::limpieza::{
    compactar_saltos_desde, compactar_saltos, lema_compactar_y_recortar, sin_tres_saltos,
};
use crate::docx_reader::{
    quitar_etiquetas_desde, quitar_etiquetas, decodificar_entidades, decodificar_entidades_exec,
    reemplazar_literal,
};

verus! {

/// `<text:s[^/]*/>` at `i`: where the space element that starts there ends.
pub open spec fn espacio_xml_en(s: Seq<char>, i: int) -> Option<int> {
    let n = racha(s, i + 7, Clase::NoBarra);
    if coincide_en(s, i, "<text:s"@) && i + 8 + n < s.len() && s[i + 8 + n] == '>' {
        Some(i + 9 + n)
    } else {
        None
    }
}

/// Every space element from `i` on replaced by one space.
pub open spec fn espacios_xml_desde(s: Seq<char>, i: int) -> Seq<char>
    decreases s.len() - i,
{
    if i < 0 || i >= s.len() {
        Seq::empty()
    } else {
        match espacio_xml_en(s, i) {
            Some(e) => seq![' '] + espacios_xml_desde(s, e),
            None => seq![s[i]] + espacios_xml_desde(s, i + 1),
        }
    }
}

/// Line breaks put before paragraphs, headings, list items and table rows, and
/// for line-break elements.
pub open spec fn marcar_bloques(t: Seq<char>) -> Seq<char> {
    let a = reemplazar(t, "<text:p "@, "\n<text:p "@);
    let b = reemplazar(a, "<text:p>"@, "\n<text:p>"@);
    let c = reemplazar(b, "<text:h "@, "\n<text:h "@);
    let d = reemplazar(c, "<text:h>"@, "\n<text:h>"@);
    let e = reemplazar(d, "<text:list-item>"@, "\n<text:list-item>"@);
    let f = reemplazar(e, "<text:list-item "@, "\n<text:list-item "@);
    let g = reemplazar(f, "<table:table-row "@, "\n<table:table-row "@);
    let h = reemplazar(g, "<table:table-row>"@, "\n<table:table-row>"@);
    let k = reemplazar(h, "<text:line-break/>"@, "\n"@);
    reemplazar(k, "<text:line-break />"@, "\n"@)
}

/// The text of an OpenDocument's XML: space elements made spaces, tabs made
/// tabs, line breaks before block elements, the tags removed, the entities
/// decoded, runs of three or more line breaks made two, and the whole trimmed.
pub open spec fn xml_a_texto(xml: Seq<char>) -> Seq<char> {
    let a = espacios_xml_desde(xml, 0);
    let b = reemplazar(reemplazar(a, "<text:s/>"@, " "@), "<text:s />"@, " "@);
    let c = reemplazar(reemplazar(b, "<text:tab/>"@, "\t"@), "<text:tab />"@, "\t"@);
    let d = quitar_etiquetas_desde(marcar_bloques(c), 0);
    recortar(compactar_saltos_desde(decodificar_entidades(d), 0, 3))
}

fn espacios_xml(t: &Vec<char>) -> (r: Vec<char>)
    ensures
        r@ == espacios_xml_desde(t@, 0),
{
    proof {
        reveal_strlit("<text:s");
    }
    let abre = caracteres("<text:s");
    let largo = t.len();
    let mut r: Vec<char> = Vec::new();
    let mut i: usize = 0;
    while i < largo
        invariant
            largo == t@.len(),
            abre@ == "<text:s"@,
            abre@.len() == 7,
            i <= t@.len(),
            r@ + espacios_xml_desde(t@, i as int) == espacios_xml_desde(t@, 0),
        decreases t@.len() - i,
    {
        let ghost antes = r@;
        let mut fin: usize = 0;
        if coincide_en_exec(t, i, &abre) {
            let n = contar_racha(t, i + 7, Clase::NoBarra);
            if largo - (i + 7) - n > 1 && t[i + 8 + n] == '>' {
                fin = i + 9 + n;
            }
        }
        if fin > 0 {
            assert(espacio_xml_en(t@, i as int) == Some(fin as int));
            r.push(' ');
            assert(antes + (seq![' '] + espacios_xml_desde(t@, fin as int)) =~= r@
                + espacios_xml_desde(t@, fin as int));
            i = fin;
        } else {
            assert(espacio_xml_en(t@, i as int) is None);
            r.push(t[i]);
            assert(antes + (seq![t@[i as int]] + espacios_xml_desde(t@, i + 1)) =~= r@
                + espacios_xml_desde(t@, i + 1));
            i += 1;
        }
    }
    assert(r@ + espacios_xml_desde(t@, i as int) =~= r@);
    r
}

fn marcar_bloques_exec(t: &Vec<char>) -> (r: Vec<char>)
    ensures
        r@ == marcar_bloques(t@),
{
    proof {
        reveal_strlit("<text:p ");
        reveal_strlit("<text:p>");
        reveal_strlit("<text:h ");
        reveal_strlit("<text:h>");
        reveal_strlit("<text:list-item>");
        reveal_strlit("<text:list-item ");
        reveal_strlit("<table:table-row ");
        reveal_strlit("<table:table-row>");
        reveal_strlit("<text:line-break/>");
        reveal_strlit("<text:line-break />");
    }
    let a = reemplazar_literal(t, "<text:p ", "\n<text:p ");
    let b = reemplazar_literal(&a, "<text:p>", "\n<text:p>");
    let c = reemplazar_literal(&b, "<text:h ", "\n<text:h ");
    let d = reemplazar_literal(&c, "<text:h>", "\n<text:h>");
    let e = reemplazar_literal(&d, "<text:list-item>", "\n<text:list-item>");
    let f = reemplazar_literal(&e, "<text:list-item ", "\n<text:list-item ");
    let g = reemplazar_literal(&f, "<table:table-row ", "\n<table:table-row ");
    let h = reemplazar_literal(&g, "<table:table-row>", "\n<table:table-row>");
    let k = reemplazar_literal(&h, "<text:line-break/>", "\n");
    reemplazar_literal(&k, "<text:line-break />", "\n")
}

/// The plain text of the XML of an OpenDocument text (`xml_a_texto`).
pub fn xml_a_texto_plano(xml: &str) -> (r: String)
    ensures
        r@ == xml_a_texto(xml@),
{
    proof {
        reveal_strlit("<text:s/>");
        reveal_strlit("<text:s />");
        reveal_strlit("<text:tab/>");
        reveal_strlit("<text:tab />");
    }
    let t = caracteres(xml);
    let a = espacios_xml(&t);
    let b1 = reemplazar_literal(&a, "<text:s/>", " ");
    let b = reemplazar_literal(&b1, "<text:s />", " ");
    let c1 = reemplazar_literal(&b, "<text:tab/>", "\t");
    let c = reemplazar_literal(&c1, "<text:tab />", "\t");
    let m = marcar_bloques_exec(&c);
    let d = quitar_etiquetas(&m);
    let e = decodificar_entidades_exec(&d);
    let f = compactar_saltos(&e, 3);
    cadena(&recortar_exec(&f))
}

/// The text of an OpenDocument text is trimmed and never holds three line breaks in a row.
pub proof fn lema_texto_plano(xml: Seq<char>)
    ensures
        recortar(xml_a_texto(xml)) == xml_a_texto(xml),
        sin_tres_saltos(xml_a_texto(xml)),
{
    let a = espacios_xml_desde(xml, 0);
    let b = reemplazar(reemplazar(a, "<text:s/>"@, " "@), "<text:s />"@, " "@);
    let c = reemplazar(reemplazar(b, "<text:tab/>"@, "\t"@), "<text:tab />"@, "\t"@);
    let d = quitar_etiquetas_desde(marcar_bloques(c), 0);
    lema_compactar_y_recortar(decodificar_entidades(d));
}

} // verus!
