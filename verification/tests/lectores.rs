use project_ares::docx_reader;
use project_ares::odt_reader;

#[test]
fn docx_parrafos_y_entidades() {
    let xml = "<w:document><w:body><w:p><w:r><w:t>1. Uno &amp; dos</w:t></w:r></w:p><w:p w:x=\"1\"><w:t>a) &lt;x&gt;</w:t><w:br/><w:t>sigue</w:t></w:p></w:body></w:document>";
    assert_eq!(docx_reader::xml_a_texto_plano(xml), "1. Uno & dos\na) <x>\nsigue");
}

#[test]
fn docx_saltos_compactados() {
    let xml = "<w:p>a</w:p><w:p></w:p><w:p></w:p><w:p>b</w:p>";
    assert_eq!(docx_reader::xml_a_texto_plano(xml), "a\n\nb");
}

#[test]
fn odt_espacios_tabuladores_y_bloques() {
    let xml = "<office:text><text:h text:outline-level=\"1\">Tema</text:h><text:p>1.<text:s text:c=\"2\"/>Uno<text:tab/>x</text:p><text:list-item><text:p>a) &quot;b&quot;</text:p></text:list-item></office:text>";
    assert_eq!(odt_reader::xml_a_texto_plano(xml), "Tema\n1. Uno\tx\n\na) \"b\"");
}

#[test]
fn texto_plano_recortado_y_sin_tres_saltos() {
    let xml = "  <w:p> </w:p><w:br/><w:br/><w:br/>&#xD;&#xD;&#xD;<w:p>x</w:p><w:br />&#xD;&#xD;  ";
    let t = docx_reader::xml_a_texto_plano(xml);
    assert_eq!(t, t.trim());
    assert!(!t.contains("\n\n\n"));
    let xml = "<text:p> </text:p><text:line-break/><text:line-break/><text:line-break/><text:p>y</text:p>&#xD;&#xD;&#xD; ";
    let t = odt_reader::xml_a_texto_plano(xml);
    assert_eq!(t, "y");
}
