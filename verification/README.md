# project_ares

Reads multiple-choice tests out of the plain text of a document (a PDF, a
Word `.docx` or an OpenDocument `.odt`): the numbered questions, their
lettered options, the answer key at the end of the document or the answers
marked in the options, and a title. It also builds a mixed test from tests
read before, with questions drawn at random from each.

The library under `src/` is written in Verus: every function has a contract
over a mathematical model of its data, and Verus proves that the code meets it.

- `texto`: character classes, runs, trimming, lines and literal replacement.
- `limpieza`: normalising line endings, removing decorative lines, compacting
  blank lines and splitting run-together questions.
- `clave`: the heading of the answer key and the entries under it.
- `parser`: the question types, the reading of questions out of the body and
  `parsear_documento`, which ties the steps together.
- `respuestas`: giving questions their answers from the key or from marks.
- `titulo`: the title from the first line or from the file's name.
- `barajar`: ordering items by random keys.
- `commands`: the mixed test, file formats and messages.
- `docx_reader`, `odt_reader`: the text of a document's XML.

`app/` holds what the verifier does not see: the desktop commands, reading
files and archives, PDF text extraction and the SQLite history.
