use project_ares::barajar::{barajar, ordenar_por_claves};
use project_ares::commands::{
    construir_test_mezclado, formato_de_ruta, formato_para_extraer, formato_para_procesar,
    mezclar_con_claves, nombre_de_ruta, procesar_texto, Formato,
};
use project_ares::parser::{Opcion, Pregunta, ResultadoParser};

fn test_res(titulo: &str, n_preguntas: u32) -> Option<ResultadoParser> {
    let preguntas: Vec<Pregunta> = (1..=n_preguntas)
        .map(|i| Pregunta {
            num: i,
            enunciado: format!("Pregunta {i} de {titulo}"),
            opciones: vec![
                Opcion { letra: "A".into(), texto: "uno".into() },
                Opcion { letra: "B".into(), texto: "dos".into() },
            ],
            correcta: Some("A".into()),
        })
        .collect();
    Some(ResultadoParser {
        titulo: titulo.to_string(),
        total: preguntas.len(),
        preguntas,
        con_clave: true,
    })
}

#[test]
fn mezcla_coge_hasta_por_test_de_cada_test() {
    let datos = vec![test_res("Test A", 15), test_res("Test B", 20)];
    let resultado = construir_test_mezclado(datos, 10).unwrap();
    assert_eq!(resultado.total, 20);
    assert_eq!(resultado.preguntas.len(), 20);
    assert!(resultado.con_clave);
    // renumeradas de forma secuencial 1..=20
    let nums: Vec<u32> = resultado.preguntas.iter().map(|p| p.num).collect();
    assert_eq!(nums, (1..=20).collect::<Vec<_>>());
}

#[test]
fn mezcla_respeta_tests_con_menos_preguntas_que_por_test() {
    let datos = vec![test_res("Test A", 3), test_res("Test B", 10)];
    let resultado = construir_test_mezclado(datos, 10).unwrap();
    assert_eq!(resultado.total, 13);
}

#[test]
fn mezcla_falla_con_menos_de_dos_tests() {
    let datos = vec![test_res("Test A", 10)];
    let err = construir_test_mezclado(datos, 10).unwrap_err();
    assert!(err.contains("al menos 2 tests"));
}

#[test]
fn barajar_mantiene_todos_los_elementos() {
    let mut v: Vec<i32> = (0..50).collect();
    barajar(&mut v);
    let mut ordenado = v.clone();
    ordenado.sort();
    assert_eq!(ordenado, (0..50).collect::<Vec<_>>());
}

#[test]
fn ordenar_por_claves_empates_por_indice() {
    let mut v = vec!['a', 'b', 'c', 'd'];
    ordenar_por_claves(&mut v, &vec![5, 1, 5, 0]);
    assert_eq!(v, vec!['d', 'b', 'a', 'c']);
}

#[test]
fn mezcla_con_claves_es_determinista() {
    let datos = vec![test_res("A", 3), None, test_res("B", 2)];
    // A barajado por [2,0,1] -> [2,3,1]; se queda con 2: [P2 A, P3 A]
    // B barajado por [1,0]   -> [2,1];   se queda con 2: [P2 B, P1 B]
    let claves = vec![vec![2, 0, 1], vec![], vec![1, 0]];
    let r = mezclar_con_claves(datos, 2, &claves, &vec![3, 2, 1, 0]).unwrap();
    let enunciados: Vec<&str> = r.preguntas.iter().map(|p| p.enunciado.as_str()).collect();
    assert_eq!(
        enunciados,
        vec!["Pregunta 1 de B", "Pregunta 2 de B", "Pregunta 3 de A", "Pregunta 2 de A"]
    );
    let nums: Vec<u32> = r.preguntas.iter().map(|p| p.num).collect();
    assert_eq!(nums, vec![1, 2, 3, 4]);
    assert_eq!(r.titulo, "Test mezclado (2 tests)");
    assert_eq!(r.total, 4);
}

#[test]
fn mezcla_sin_preguntas_disponibles() {
    let datos = vec![None, test_res("A", 0)];
    let err = construir_test_mezclado(datos, 5).unwrap_err();
    assert_eq!(err, "Los tests del historial no tienen preguntas disponibles.");
    let datos = vec![test_res("A", 4), test_res("B", 4)];
    let err = construir_test_mezclado(datos, 0).unwrap_err();
    assert_eq!(err, "Los tests del historial no tienen preguntas disponibles.");
}

#[test]
fn formatos_por_extension() {
    assert!(matches!(formato_de_ruta("/a/b/Examen.PDF"), Formato::Pdf));
    assert!(matches!(formato_de_ruta("x.Docx"), Formato::Docx));
    assert!(matches!(formato_de_ruta("x.doc"), Formato::Doc));
    assert!(matches!(formato_de_ruta("x.odf"), Formato::Odt));
    assert!(matches!(formato_de_ruta("x.txt"), Formato::Desconocido));
    assert!(formato_para_procesar("x.doc").unwrap_err().contains("Word 97-2003"));
    assert_eq!(
        formato_para_procesar("x.txt").unwrap_err(),
        "Formato no soportado. Usa PDF, .docx o .odt"
    );
    assert_eq!(formato_para_extraer("x.doc").unwrap_err(), "Formato no soportado");
    assert!(matches!(formato_para_extraer("x.odt"), Ok(Formato::Odt)));
}

#[test]
fn nombre_de_la_ruta() {
    let n: String = nombre_de_ruta("/home/u/tests/tema1.pdf").into_iter().collect();
    assert_eq!(n, "tema1.pdf");
    let n: String = nombre_de_ruta("suelto.docx").into_iter().collect();
    assert_eq!(n, "suelto.docx");
}

#[test]
fn procesar_texto_muestra_las_primeras_lineas() {
    let texto: String = (1..=25).map(|i| format!("linea {i}\n")).collect();
    let err = procesar_texto(&texto, "/x/y.pdf").unwrap_err();
    let esperado_previa: Vec<String> = (1..=20).map(|i| format!("linea {i}")).collect();
    assert_eq!(
        err,
        format!(
            "No se encontraron preguntas. Comprueba el formato del documento.\n\n--- Texto extraído (primeras 20 líneas) ---\n{}",
            esperado_previa.join("\n")
        )
    );
    let ok = procesar_texto("1. Uno\na) x\n", "/dir/tema.pdf").unwrap();
    assert_eq!(ok.titulo, "tema");
}

#[test]
fn mezcla_no_repite_preguntas() {
    let datos = vec![test_res("Test A", 7), test_res("Test B", 9), None];
    let r = construir_test_mezclado(datos, 5).unwrap();
    assert_eq!(r.total, 10);
    let mut enunciados: Vec<String> = r.preguntas.iter().map(|p| p.enunciado.clone()).collect();
    let de_a = enunciados.iter().filter(|e| e.ends_with("de Test A")).count();
    assert_eq!(de_a, 5);
    enunciados.sort();
    enunciados.dedup();
    assert_eq!(enunciados.len(), 10);
    assert_eq!(r.titulo, "Test mezclado (2 tests)");
}
