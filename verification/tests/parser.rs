use project_ares::parser::parsear_documento;

#[test]
fn test_parseo_con_clave() {
    let texto = r#"
Test de ejemplo

1. ¿Cuál es la capital de España?
a) Barcelona
b) Madrid
c) Valencia
d) Sevilla

2. ¿En qué año se aprobó la Constitución española?
a) 1975
b) 1977
c) 1978
d) 1982

SOLUCIONES
1. B
2. C
"#;
    let r = parsear_documento(texto, "test.pdf").unwrap();
    assert_eq!(r.preguntas.len(), 2);
    assert!(r.con_clave);
    assert_eq!(r.preguntas[0].correcta.as_deref(), Some("B"));
    assert_eq!(r.preguntas[1].correcta.as_deref(), Some("C"));
}

use project_ares::parser::{Pregunta, Opcion};
use project_ares::respuestas::{aplicar_clave, buscar_respuesta_inline};
use std::collections::HashMap;

fn pregunta(num: u32, enunciado: &str, opciones: &[(&str, &str)]) -> Pregunta {
    Pregunta {
        num,
        enunciado: enunciado.to_string(),
        opciones: opciones
            .iter()
            .map(|(l, t)| Opcion { letra: l.to_string(), texto: t.to_string() })
            .collect(),
        correcta: None,
    }
}

#[test]
fn sin_preguntas_es_error() {
    let r = parsear_documento("Solo un título\nsin preguntas\n", "a.pdf");
    assert_eq!(
        r.unwrap_err(),
        "No se encontraron preguntas. Comprueba el formato del documento."
    );
}

#[test]
fn pregunta_sin_opciones_se_descarta() {
    let texto = "1. Primera sin opciones\n2. Segunda\na) uno\nb) dos\n";
    let r = parsear_documento(texto, "x.pdf").unwrap();
    assert_eq!(r.total, 1);
    assert_eq!(r.preguntas[0].num, 2);
    assert_eq!(r.preguntas[0].enunciado, "Segunda");
}

#[test]
fn clave_posicional_una_letra_por_linea() {
    let texto = "1. Uno?\na) x\nb) y\n2. Dos?\na) x\nb) y\nRESPUESTAS\nb\n A \n";
    let r = parsear_documento(texto, "x.pdf").unwrap();
    assert_eq!(r.preguntas[0].correcta.as_deref(), Some("B"));
    assert_eq!(r.preguntas[1].correcta.as_deref(), Some("A"));
    assert!(r.con_clave);
}

#[test]
fn clave_con_formatos_variados() {
    let texto = "1) Uno\na. x\nb. y\n2) Dos\na. x\nb. y\n3) Tres\na. x\nc. z\nClave de respuestas:\n1.- a\n2) B\n3: c\n";
    let r = parsear_documento(texto, "x.pdf").unwrap();
    let letras: Vec<Option<&str>> = r.preguntas.iter().map(|p| p.correcta.as_deref()).collect();
    assert_eq!(letras, vec![Some("A"), Some("B"), Some("C")]);
}

#[test]
fn respuesta_marcada_en_la_opcion() {
    let texto = "1. Capital de Francia\na) Roma\nb) París (correcta)\nc) Berlín\n2. Dos más dos\na) 3\nb) 4 **b**\n3. Sin marca\na) x\nb) y\n";
    let r = parsear_documento(texto, "x.pdf").unwrap();
    assert_eq!(r.preguntas[0].correcta.as_deref(), Some("B"));
    assert_eq!(r.preguntas[1].correcta.as_deref(), Some("B"));
    assert_eq!(r.preguntas[2].correcta, None);
    assert!(r.con_clave);
}

#[test]
fn opciones_continuan_en_lineas_siguientes() {
    let texto = "1. Enunciado\nque sigue\na) primera\n   parte dos\nb) segunda\n";
    let r = parsear_documento(texto, "x.pdf").unwrap();
    let p = &r.preguntas[0];
    assert_eq!(p.enunciado, "Enunciado que sigue");
    assert_eq!(p.opciones[0].texto, "primera parte dos");
    assert_eq!(p.opciones[1].letra, "B");
    assert!(!r.con_clave);
}

#[test]
fn preguntas_ordenadas_por_numero() {
    let texto = "3. Tres\na) x\n1. Uno\na) x\n2. Dos\na) x\n";
    let r = parsear_documento(texto, "x.pdf").unwrap();
    let nums: Vec<u32> = r.preguntas.iter().map(|p| p.num).collect();
    assert_eq!(nums, vec![1, 2, 3]);
    assert_eq!(r.total, 3);
}

#[test]
fn titulo_de_la_primera_linea_o_del_nombre() {
    let r = parsear_documento("Examen final\n1. Uno\na) x\n", "dir/otro.pdf").unwrap();
    assert_eq!(r.titulo, "Examen final");
    let r = parsear_documento("1. Uno\na) x\n", "carpeta/sub/tema.docx").unwrap();
    assert_eq!(r.titulo, "tema");
    let r = parsear_documento("1. Uno\na) x\n", "raro.pdf.pdf").unwrap();
    assert_eq!(r.titulo, "raro");
}

#[test]
fn lineas_decorativas_y_retornos() {
    let texto = "Titulo\r\n=========\r\n1. Uno\r\na) x\rb) y\r\n";
    let r = parsear_documento(texto, "x.pdf").unwrap();
    assert_eq!(r.titulo, "Titulo");
    assert_eq!(r.preguntas[0].opciones.len(), 2);
    assert_eq!(r.preguntas[0].opciones[1].texto, "y");
}

#[test]
fn texto_concatenado_se_separa() {
    let relleno = "x".repeat(200);
    let texto = format!("{relleno} 1.- Primera a.- uno b.- dos 2.- Segunda a.- tres b.- cuatro");
    let r = parsear_documento(&texto, "x.pdf").unwrap();
    assert_eq!(r.total, 2);
    assert_eq!(r.preguntas[0].enunciado, "Primera");
    assert_eq!(r.preguntas[1].opciones[1].texto, "cuatro");
}

#[test]
fn aplicar_clave_solo_donde_hay_entrada() {
    let ps = vec![pregunta(1, "a", &[("A", "x")]), pregunta(2, "b", &[("A", "x")])];
    let mut clave = HashMap::new();
    clave.insert(2u32, "C".to_string());
    let r = aplicar_clave(ps, &clave);
    assert_eq!(r[0].correcta, None);
    assert_eq!(r[1].correcta.as_deref(), Some("C"));
    assert_eq!(r[1].enunciado, "b");
}

#[test]
fn inline_toma_la_primera_opcion_marcada() {
    let ps = vec![pregunta(1, "a", &[("A", "[b] no"), ("B", "es la CORRECTA"), ("C", "*c*")])];
    let r = buscar_respuesta_inline(ps);
    assert_eq!(r[0].correcta.as_deref(), Some("A"));
}

#[test]
fn cabecera_clave_sola() {
    let texto = "1. Uno\na) x\nb) y\nCLAVE\n1. b\n";
    let r = parsear_documento(texto, "x.pdf").unwrap();
    assert_eq!(r.preguntas[0].correcta.as_deref(), Some("B"));
}

#[test]
fn cabecera_respuestas_correctas_con_dos_puntos() {
    let texto = "1. Uno\na) x\nb) y\n2. Dos\na) x\nb) y\nRespuestas correctas:\n1 - A\n2 - B\n";
    let r = parsear_documento(texto, "x.pdf").unwrap();
    assert_eq!(r.preguntas[0].correcta.as_deref(), Some("A"));
    assert_eq!(r.preguntas[1].correcta.as_deref(), Some("B"));
}

#[test]
fn entrada_de_clave_exige_fin_de_palabra() {
    // "1. Ab" is no entry: a letter must stand alone; the key then falls back to
    // the lines that hold one letter.
    let texto = "1. Uno\na) x\nb) y\nSOLUCIONES\n1. Ab\nc\n";
    let r = parsear_documento(texto, "x.pdf").unwrap();
    assert_eq!(r.preguntas[0].correcta.as_deref(), Some("C"));
}

#[test]
fn ultima_entrada_de_un_numero_gana() {
    let texto = "1. Uno\na) x\nb) y\nSOLUCIONES\n1. A\n1. D\n";
    let r = parsear_documento(texto, "x.pdf").unwrap();
    assert_eq!(r.preguntas[0].correcta.as_deref(), Some("D"));
}

#[test]
fn guion_tras_la_letra_de_opcion() {
    let texto = "1.- Enunciado\na) - uno\nb)-\nc)   \n";
    let r = parsear_documento(texto, "x.pdf").unwrap();
    let textos: Vec<&str> = r.preguntas[0].opciones.iter().map(|o| o.texto.as_str()).collect();
    assert_eq!(textos, vec!["uno", "-", ""]);
    assert_eq!(r.preguntas[0].enunciado, "Enunciado");
}

#[test]
fn numeros_de_mas_de_tres_cifras_no_abren_pregunta() {
    let texto = "1234. No es pregunta\n12. Si\na) x\n";
    let r = parsear_documento(texto, "x.pdf").unwrap();
    assert_eq!(r.total, 1);
    assert_eq!(r.preguntas[0].num, 12);
}

#[test]
fn fin_de_palabra_segun_la_clase_unicode() {
    // A connector such as `‿` continues a word, so "1. A‿" is no entry and the
    // key falls back to the lone letter; a superscript `²` ends the word.
    let texto = "1. Uno\na) x\nb) y\nSOLUCIONES\n1. A\u{203f}\nb\n";
    let r = parsear_documento(texto, "x.pdf").unwrap();
    assert_eq!(r.preguntas[0].correcta.as_deref(), Some("B"));
    let texto = "1. Uno\na) x\nb) y\nSOLUCIONES\n1. A\u{b2}\nb\n";
    let r = parsear_documento(texto, "x.pdf").unwrap();
    assert_eq!(r.preguntas[0].correcta.as_deref(), Some("A"));
}

#[test]
fn digitos_de_otras_escrituras() {
    // `\u{661}` is the Arabic-Indic digit one: it opens a question, whose
    // number does not parse and so is 0, and it keeps a line from being the title.
    let texto = "\u{661}. Primera\na) x\nb) y\n2. Segunda\na) x\nb) y\n";
    let r = parsear_documento(texto, "carpeta/examen.pdf").unwrap();
    assert_eq!(r.total, 2);
    assert_eq!(r.preguntas[0].num, 0);
    assert_eq!(r.preguntas[0].enunciado, "Primera");
    assert_eq!(r.preguntas[1].num, 2);
    assert_eq!(r.titulo, "examen");
}

#[test]
fn entrada_con_digitos_de_otra_escritura_se_salta() {
    let texto = "1. Uno\na) x\nb) y\nSOLUCIONES\n\u{ff11}. A\n1. B\n";
    let r = parsear_documento(texto, "x.pdf").unwrap();
    assert_eq!(r.preguntas[0].correcta.as_deref(), Some("B"));
    let texto = "1. Uno\na) x\nb) y\nSOLUCIONES\n\u{ff11}. A\nc\n";
    let r = parsear_documento(texto, "x.pdf").unwrap();
    assert_eq!(r.preguntas[0].correcta.as_deref(), Some("C"));
}

#[test]
fn los_nombres_del_bloque_de_soluciones() {
    for cabecera in ["SOLUCIONES", "RESPUESTAS CORRECTAS", "CLAVE", "CONTESTACIONES", "Clave de respuestas", "Answers:"] {
        let texto = format!("1. Uno\na) x\nb) y\n2. Dos\na) x\nb) y\n{cabecera}\n1. B\n2. A\n");
        let r = parsear_documento(&texto, "x.pdf").unwrap();
        assert!(r.con_clave, "{cabecera}");
        assert_eq!(r.preguntas[0].correcta.as_deref(), Some("B"), "{cabecera}");
        assert_eq!(r.preguntas[1].correcta.as_deref(), Some("A"), "{cabecera}");
    }
}

#[test]
fn finales_de_linea_y_nombre_del_archivo() {
    let lf = "Examen\n1. Uno\na) x\nb) y\n2. Dos\na) x\nb) y\nSOLUCIONES\n1. A\n2. B\n";
    let base = parsear_documento(lf, "a/b.pdf").unwrap();
    for otro in [lf.replace('\n', "\r\n"), lf.replace('\n', "\r")] {
        let r = parsear_documento(&otro, "a/b.pdf").unwrap();
        assert_eq!(format!("{:?}", r), format!("{:?}", base));
    }
    let sin_titulo = "1. Uno\na) x\n";
    let a = parsear_documento(sin_titulo, "uno.pdf").unwrap();
    let b = parsear_documento(sin_titulo, "dos.docx").unwrap();
    assert_eq!(a.titulo, "uno");
    assert_eq!(b.titulo, "dos");
    assert_eq!(format!("{:?}", a.preguntas), format!("{:?}", b.preguntas));
}

#[test]
fn mismo_numero_conserva_el_orden_del_documento() {
    let texto = "2. Segunda\na) x\n1. Primera A\na) x\n1. Primera B\na) x\nsin opciones\n3. Sin opciones\n";
    let r = parsear_documento(texto, "x.pdf").unwrap();
    let vistos: Vec<(u32, &str)> = r.preguntas.iter().map(|p| (p.num, p.enunciado.as_str())).collect();
    assert_eq!(vistos, vec![(1, "Primera A"), (1, "Primera B"), (2, "Segunda")]);
    assert!(r.preguntas.iter().all(|p| p.num < 1000 && p.enunciado == p.enunciado.trim()));
}
