//! Character classes, runs, trimming, lines and literal replacement over
//! sequences of `char`, the building blocks of the document format.
use vstd::prelude::*;

verus! {

/// Unicode `White_Space`: the property behind `char::is_whitespace`,
/// `str::trim` and the class `\s` of the document grammar.
pub open spec fn es_espacio(c: char) -> bool {
    let u = c as u32;
    ||| 0x9 <= u <= 0xd
    ||| u == 0x20 || u == 0x85 || u == 0xa0 || u == 0x1680
    ||| 0x2000 <= u <= 0x200a
    ||| u == 0x2028 || u == 0x2029 || u == 0x202f || u == 0x205f || u == 0x3000
}

/// `\d`: a decimal digit of any script, Unicode's general category
/// `Decimal_Number` (Unicode 16).
pub open spec fn es_digito(c: char) -> bool {
    let u = c as u32;
    ||| 0x30 <= u <= 0x39
    ||| 0x660 <= u <= 0x669
    ||| 0x6f0 <= u <= 0x6f9
    ||| 0x7c0 <= u <= 0x7c9
    ||| 0x966 <= u <= 0x96f
    ||| 0x9e6 <= u <= 0x9ef
    ||| 0xa66 <= u <= 0xa6f
    ||| 0xae6 <= u <= 0xaef
    ||| 0xb66 <= u <= 0xb6f
    ||| 0xbe6 <= u <= 0xbef
    ||| 0xc66 <= u <= 0xc6f
    ||| 0xce6 <= u <= 0xcef
    ||| 0xd66 <= u <= 0xd6f
    ||| 0xde6 <= u <= 0xdef
    ||| 0xe50 <= u <= 0xe59
    ||| 0xed0 <= u <= 0xed9
    ||| 0xf20 <= u <= 0xf29
    ||| 0x1040 <= u <= 0x1049
    ||| 0x1090 <= u <= 0x1099
    ||| 0x17e0 <= u <= 0x17e9
    ||| 0x1810 <= u <= 0x1819
    ||| 0x1946 <= u <= 0x194f
    ||| 0x19d0 <= u <= 0x19d9
    ||| 0x1a80 <= u <= 0x1a89
    ||| 0x1a90 <= u <= 0x1a99
    ||| 0x1b50 <= u <= 0x1b59
    ||| 0x1bb0 <= u <= 0x1bb9
    ||| 0x1c40 <= u <= 0x1c49
    ||| 0x1c50 <= u <= 0x1c59
    ||| 0xa620 <= u <= 0xa629
    ||| 0xa8d0 <= u <= 0xa8d9
    ||| 0xa900 <= u <= 0xa909
    ||| 0xa9d0 <= u <= 0xa9d9
    ||| 0xa9f0 <= u <= 0xa9f9
    ||| 0xaa50 <= u <= 0xaa59
    ||| 0xabf0 <= u <= 0xabf9
    ||| 0xff10 <= u <= 0xff19
    ||| 0x104a0 <= u <= 0x104a9
    ||| 0x10d30 <= u <= 0x10d39
    ||| 0x10d40 <= u <= 0x10d49
    ||| 0x11066 <= u <= 0x1106f
    ||| 0x110f0 <= u <= 0x110f9
    ||| 0x11136 <= u <= 0x1113f
    ||| 0x111d0 <= u <= 0x111d9
    ||| 0x112f0 <= u <= 0x112f9
    ||| 0x11450 <= u <= 0x11459
    ||| 0x114d0 <= u <= 0x114d9
    ||| 0x11650 <= u <= 0x11659
    ||| 0x116c0 <= u <= 0x116c9
    ||| 0x116d0 <= u <= 0x116e3
    ||| 0x11730 <= u <= 0x11739
    ||| 0x118e0 <= u <= 0x118e9
    ||| 0x11950 <= u <= 0x11959
    ||| 0x11bf0 <= u <= 0x11bf9
    ||| 0x11c50 <= u <= 0x11c59
    ||| 0x11d50 <= u <= 0x11d59
    ||| 0x11da0 <= u <= 0x11da9
    ||| 0x11f50 <= u <= 0x11f59
    ||| 0x16130 <= u <= 0x16139
    ||| 0x16a60 <= u <= 0x16a69
    ||| 0x16ac0 <= u <= 0x16ac9
    ||| 0x16b50 <= u <= 0x16b59
    ||| 0x16d70 <= u <= 0x16d79
    ||| 0x1ccf0 <= u <= 0x1ccf9
    ||| 0x1d7ce <= u <= 0x1d7ff
    ||| 0x1e140 <= u <= 0x1e149
    ||| 0x1e2f0 <= u <= 0x1e2f9
    ||| 0x1e4f0 <= u <= 0x1e4f9
    ||| 0x1e5f1 <= u <= 0x1e5fa
    ||| 0x1e950 <= u <= 0x1e959
    ||| 0x1fbf0 <= u <= 0x1fbf9
}

/// A digit from `0` to `9`, the only ones that `str::parse` reads.
pub open spec fn es_digito_ascii(c: char) -> bool {
    '0' <= c <= '9'
}

pub fn digito(c: char) -> (r: bool)
    ensures
        r == es_digito(c),
{
    let u = c as u32;
    if u < 0x80 {
        0x30 <= u && u <= 0x39
    } else {
        false
            || (0x660 <= u && u <= 0x669)
            || (0x6f0 <= u && u <= 0x6f9)
            || (0x7c0 <= u && u <= 0x7c9)
            || (0x966 <= u && u <= 0x96f)
            || (0x9e6 <= u && u <= 0x9ef)
            || (0xa66 <= u && u <= 0xa6f)
            || (0xae6 <= u && u <= 0xaef)
            || (0xb66 <= u && u <= 0xb6f)
            || (0xbe6 <= u && u <= 0xbef)
            || (0xc66 <= u && u <= 0xc6f)
            || (0xce6 <= u && u <= 0xcef)
            || (0xd66 <= u && u <= 0xd6f)
            || (0xde6 <= u && u <= 0xdef)
            || (0xe50 <= u && u <= 0xe59)
            || (0xed0 <= u && u <= 0xed9)
            || (0xf20 <= u && u <= 0xf29)
            || (0x1040 <= u && u <= 0x1049)
            || (0x1090 <= u && u <= 0x1099)
            || (0x17e0 <= u && u <= 0x17e9)
            || (0x1810 <= u && u <= 0x1819)
            || (0x1946 <= u && u <= 0x194f)
            || (0x19d0 <= u && u <= 0x19d9)
            || (0x1a80 <= u && u <= 0x1a89)
            || (0x1a90 <= u && u <= 0x1a99)
            || (0x1b50 <= u && u <= 0x1b59)
            || (0x1bb0 <= u && u <= 0x1bb9)
            || (0x1c40 <= u && u <= 0x1c49)
            || (0x1c50 <= u && u <= 0x1c59)
            || (0xa620 <= u && u <= 0xa629)
            || (0xa8d0 <= u && u <= 0xa8d9)
            || (0xa900 <= u && u <= 0xa909)
            || (0xa9d0 <= u && u <= 0xa9d9)
            || (0xa9f0 <= u && u <= 0xa9f9)
            || (0xaa50 <= u && u <= 0xaa59)
            || (0xabf0 <= u && u <= 0xabf9)
            || (0xff10 <= u && u <= 0xff19)
            || (0x104a0 <= u && u <= 0x104a9)
            || (0x10d30 <= u && u <= 0x10d39)
            || (0x10d40 <= u && u <= 0x10d49)
            || (0x11066 <= u && u <= 0x1106f)
            || (0x110f0 <= u && u <= 0x110f9)
            || (0x11136 <= u && u <= 0x1113f)
            || (0x111d0 <= u && u <= 0x111d9)
            || (0x112f0 <= u && u <= 0x112f9)
            || (0x11450 <= u && u <= 0x11459)
            || (0x114d0 <= u && u <= 0x114d9)
            || (0x11650 <= u && u <= 0x11659)
            || (0x116c0 <= u && u <= 0x116c9)
            || (0x116d0 <= u && u <= 0x116e3)
            || (0x11730 <= u && u <= 0x11739)
            || (0x118e0 <= u && u <= 0x118e9)
            || (0x11950 <= u && u <= 0x11959)
            || (0x11bf0 <= u && u <= 0x11bf9)
            || (0x11c50 <= u && u <= 0x11c59)
            || (0x11d50 <= u && u <= 0x11d59)
            || (0x11da0 <= u && u <= 0x11da9)
            || (0x11f50 <= u && u <= 0x11f59)
            || (0x16130 <= u && u <= 0x16139)
            || (0x16a60 <= u && u <= 0x16a69)
            || (0x16ac0 <= u && u <= 0x16ac9)
            || (0x16b50 <= u && u <= 0x16b59)
            || (0x16d70 <= u && u <= 0x16d79)
            || (0x1ccf0 <= u && u <= 0x1ccf9)
            || (0x1d7ce <= u && u <= 0x1d7ff)
            || (0x1e140 <= u && u <= 0x1e149)
            || (0x1e2f0 <= u && u <= 0x1e2f9)
            || (0x1e4f0 <= u && u <= 0x1e4f9)
            || (0x1e5f1 <= u && u <= 0x1e5fa)
            || (0x1e950 <= u && u <= 0x1e959)
            || (0x1fbf0 <= u && u <= 0x1fbf9)
    }
}

/// An option letter: `A` to `D` in either case.
pub open spec fn es_letra_opcion(c: char) -> bool {
    ('a' <= c <= 'd') || ('A' <= c <= 'D')
}

/// The upper-case form of an option letter.
pub open spec fn mayuscula_opcion(c: char) -> char {
    if c == 'a' {
        'A'
    } else if c == 'b' {
        'B'
    } else if c == 'c' {
        'C'
    } else if c == 'd' {
        'D'
    } else {
        c
    }
}

/// `c` equals the lower-case ASCII letter or punctuation `x`, ignoring case as
/// simple case folding does (the long s folds to `s`).
pub open spec fn igual_sin_caso(c: char, x: char) -> bool {
    ||| c == x
    ||| ('A' <= c <= 'Z' && (c as u32) + 32 == (x as u32))
    ||| (x == 's' && c == '\u{17f}')
}

/// The classes of characters whose runs the grammar measures.
#[derive(Clone, Copy)]
pub enum Clase {
    Espacio,
    Digito,
    NoSalto,
    Salto,
    /// `[\s\-_=*]`: the characters of a decorative line.
    Decorativo,
    /// `[\.\)\-:\s]`: what separates a number from its letter in an answer key.
    SeparadorClave,
    /// `[\s:.]`: what may follow the heading of an answer key.
    ColaCabecera,
    NoCierre,
    NoBarra,
}

pub open spec fn en_clase(c: char, k: Clase) -> bool {
    match k {
        Clase::Espacio => es_espacio(c),
        Clase::Digito => es_digito(c),
        Clase::NoSalto => c != '\n',
        Clase::Salto => c == '\n',
        Clase::Decorativo => es_espacio(c) || c == '-' || c == '_' || c == '=' || c == '*',
        Clase::SeparadorClave => es_espacio(c) || c == '.' || c == ')' || c == '-' || c == ':',
        Clase::ColaCabecera => es_espacio(c) || c == ':' || c == '.',
        Clase::NoCierre => c != '>',
        Clase::NoBarra => c != '/',
    }
}

/// Length of the run of characters of class `k` that starts at `i`.
pub open spec fn racha(s: Seq<char>, i: int, k: Clase) -> nat
    decreases s.len() - i,
{
    if 0 <= i < s.len() && en_clase(s[i], k) {
        1 + racha(s, i + 1, k)
    } else {
        0
    }
}

pub fn espacio(c: char) -> (r: bool)
    ensures
        r == es_espacio(c),
{
    let u = c as u32;
    (0x9 <= u && u <= 0xd) || u == 0x20 || u == 0x85 || u == 0xa0 || u == 0x1680 || (0x2000 <= u
        && u <= 0x200a) || u == 0x2028 || u == 0x2029 || u == 0x202f || u == 0x205f || u == 0x3000
}

pub fn de_clase(c: char, k: Clase) -> (r: bool)
    ensures
        r == en_clase(c, k),
{
    match k {
        Clase::Espacio => espacio(c),
        Clase::Digito => digito(c),
        Clase::NoSalto => c != '\n',
        Clase::Salto => c == '\n',
        Clase::Decorativo => espacio(c) || c == '-' || c == '_' || c == '=' || c == '*',
        Clase::SeparadorClave => espacio(c) || c == '.' || c == ')' || c == '-' || c == ':',
        Clase::ColaCabecera => espacio(c) || c == ':' || c == '.',
        Clase::NoCierre => c != '>',
        Clase::NoBarra => c != '/',
    }
}

pub fn igual_sin_caso_exec(c: char, x: char) -> (r: bool)
    ensures
        r == igual_sin_caso(c, x),
{
    c == x || ('A' <= c && c <= 'Z' && (c as u32) + 32 == (x as u32)) || (x == 's' && c
        == '\u{17f}')
}

pub fn mayuscula_opcion_exec(c: char) -> (r: char)
    ensures
        r == mayuscula_opcion(c),
{
    if c == 'a' {
        'A'
    } else if c == 'b' {
        'B'
    } else if c == 'c' {
        'C'
    } else if c == 'd' {
        'D'
    } else {
        c
    }
}

pub proof fn lema_racha_acotada(s: Seq<char>, i: int, k: Clase)
    requires
        0 <= i <= s.len(),
    ensures
        i + racha(s, i, k) <= s.len(),
        forall|j: int| i <= j < i + racha(s, i, k) ==> en_clase(#[trigger] s[j], k),
        i + racha(s, i, k) < s.len() ==> !en_clase(s[i + racha(s, i, k)], k),
    decreases s.len() - i,
{
    if i < s.len() && en_clase(s[i], k) {
        lema_racha_acotada(s, i + 1, k);
    }
}

/// The run of class `k` starting at `i`.
pub fn contar_racha(t: &Vec<char>, i: usize, k: Clase) -> (n: usize)
    requires
        i <= t@.len(),
    ensures
        n == racha(t@, i as int, k),
        i + n <= t@.len(),
{
    let mut j = i;
    while j < t.len() && de_clase(t[j], k)
        invariant
            i <= j <= t@.len(),
            racha(t@, i as int, k) == (j - i) + racha(t@, j as int, k),
        decreases t@.len() - j,
    {
        j += 1;
    }
    j - i
}

/// Number of white-space characters at the end of `s`.
pub open spec fn espacios_finales(s: Seq<char>) -> nat
    decreases s.len(),
{
    if s.len() > 0 && es_espacio(s.last()) {
        1 + espacios_finales(s.drop_last())
    } else {
        0
    }
}

/// `str::trim`: `s` without its leading and trailing white space.
pub open spec fn recortar(s: Seq<char>) -> Seq<char> {
    let a = racha(s, 0, Clase::Espacio);
    if a >= s.len() {
        Seq::empty()
    } else {
        s.subrange(a as int, s.len() - espacios_finales(s))
    }
}

/// Proves the trailing white space of `s` beyond a non-space at `a` stays after `a`.
proof fn lema_finales_tras_no_espacio(s: Seq<char>, a: int)
    requires
        0 <= a < s.len(),
        !es_espacio(s[a]),
    ensures
        a < s.len() - espacios_finales(s),
    decreases s.len(),
{
    if s.len() > 0 && es_espacio(s.last()) {
        assert(a < s.len() - 1);
        assert(s.drop_last()[a] == s[a]);
        lema_finales_tras_no_espacio(s.drop_last(), a);
    }
}

pub fn recortar_exec(s: &Vec<char>) -> (r: Vec<char>)
    ensures
        r@ == recortar(s@),
{
    let a = contar_racha(s, 0, Clase::Espacio);
    if a >= s.len() {
        return Vec::new();
    }
    let mut b = s.len();
    assert(s@.take(b as int) =~= s@);
    while b > a && espacio(s[b - 1])
        invariant
            a < s@.len(),
            a <= b <= s@.len(),
            espacios_finales(s@) == (s@.len() - b) + espacios_finales(s@.take(b as int)),
        decreases b,
    {
        assert(s@.take(b as int).drop_last() =~= s@.take(b - 1));
        b -= 1;
    }
    proof {
        if b > a {
            assert(s@.take(b as int).last() == s@[b - 1]);
        } else {
            assert(!es_espacio(s@[a as int])) by {
                lema_racha_acotada(s@, 0, Clase::Espacio);
            }
            lema_finales_tras_no_espacio(s@, a as int);
            assert(s@.take(b as int).last() == s@[b - 1]);
        }
    }
    copiar_rango(s, a, b)
}

/// A copy of `t[lo..hi]`.
pub fn copiar_rango(t: &Vec<char>, lo: usize, hi: usize) -> (r: Vec<char>)
    requires
        lo <= hi <= t@.len(),
    ensures
        r@ == t@.subrange(lo as int, hi as int),
{
    let mut r: Vec<char> = Vec::new();
    let mut i = lo;
    while i < hi
        invariant
            lo <= i <= hi <= t@.len(),
            r@ == t@.subrange(lo as int, i as int),
        decreases hi - i,
    {
        r.push(t[i]);
        assert(r@ =~= t@.subrange(lo as int, i + 1));
        i += 1;
    }
    r
}

/// Appends `b` to `a`.
pub fn anexar(a: &mut Vec<char>, b: &Vec<char>)
    ensures
        final(a)@ == old(a)@ + b@,
{
    let ghost inicial = a@;
    let mut i: usize = 0;
    while i < b.len()
        invariant
            i <= b@.len(),
            a@ == inicial + b@.take(i as int),
        decreases b@.len() - i,
    {
        a.push(b[i]);
        assert(a@ =~= inicial + b@.take(i + 1));
        i += 1;
    }
    assert(b@.take(i as int) =~= b@);
}

/// `p` occurs in `s` at position `i`.
pub open spec fn coincide_en(s: Seq<char>, i: int, p: Seq<char>) -> bool {
    0 <= i && i + p.len() <= s.len() && s.subrange(i, i + p.len()) == p
}

pub fn coincide_en_exec(t: &Vec<char>, i: usize, p: &Vec<char>) -> (r: bool)
    ensures
        r == coincide_en(t@, i as int, p@),
{
    if i > t.len() || p.len() > t.len() - i {
        return false;
    }
    let mut k: usize = 0;
    let largo = t.len();
    while k < p.len()
        invariant
            largo == t@.len(),
            i + p@.len() <= t@.len(),
            k <= p@.len(),
            forall|j: int| 0 <= j < k ==> t@[i + j] == p@[j],
        decreases p@.len() - k,
    {
        assert(i + k < t@.len());
        let pos = i + k;
        if t[pos] != p[k] {
            assert(t@.subrange(i as int, i + p@.len())[k as int] != p@[k as int]);
            return false;
        }
        k += 1;
    }
    assert(t@.subrange(i as int, i + p@.len()) =~= p@);
    true
}

/// The lower-case word `w` occurs at `i` in `s`, ignoring case.
pub open spec fn coincide_sin_caso(s: Seq<char>, i: int, w: Seq<char>) -> bool {
    &&& 0 <= i
    &&& i + w.len() <= s.len()
    &&& forall|k: int| 0 <= k < w.len() ==> igual_sin_caso(#[trigger] s[i + k], w[k])
}

pub fn coincide_sin_caso_exec(t: &Vec<char>, i: usize, w: &Vec<char>) -> (r: bool)
    ensures
        r == coincide_sin_caso(t@, i as int, w@),
{
    if i > t.len() || w.len() > t.len() - i {
        return false;
    }
    let mut k: usize = 0;
    let largo = t.len();
    while k < w.len()
        invariant
            largo == t@.len(),
            i + w@.len() <= t@.len(),
            k <= w@.len(),
            forall|j: int| 0 <= j < k ==> igual_sin_caso(#[trigger] t@[i + j], w@[j]),
        decreases w@.len() - k,
    {
        assert(i + k < t@.len());
        let pos = i + k;
        if !igual_sin_caso_exec(t[pos], w[k]) {
            return false;
        }
        k += 1;
    }
    true
}

/// `str::replace`: every occurrence of `p` in `s` from `i` on, taken from left to
/// right without overlap, replaced by `r`.
pub open spec fn reemplazar_desde(s: Seq<char>, p: Seq<char>, r: Seq<char>, i: int) -> Seq<char>
    decreases s.len() - i,
{
    if i < 0 || i >= s.len() {
        Seq::empty()
    } else if p.len() > 0 && coincide_en(s, i, p) {
        r + reemplazar_desde(s, p, r, i + p.len())
    } else {
        seq![s[i]] + reemplazar_desde(s, p, r, i + 1)
    }
}

pub open spec fn reemplazar(s: Seq<char>, p: Seq<char>, r: Seq<char>) -> Seq<char> {
    reemplazar_desde(s, p, r, 0)
}

pub fn reemplazar_exec(t: &Vec<char>, p: &Vec<char>, r: &Vec<char>) -> (out: Vec<char>)
    requires
        p@.len() > 0,
    ensures
        out@ == reemplazar(t@, p@, r@),
{
    let mut out: Vec<char> = Vec::new();
    let mut i: usize = 0;
    while i < t.len()
        invariant
            i <= t@.len(),
            p@.len() > 0,
            out@ + reemplazar_desde(t@, p@, r@, i as int) == reemplazar(t@, p@, r@),
        decreases t@.len() - i,
    {
        if coincide_en_exec(t, i, p) {
            let ghost antes = out@;
            anexar(&mut out, r);
            assert(antes + (r@ + reemplazar_desde(t@, p@, r@, i + p@.len())) =~= out@
                + reemplazar_desde(t@, p@, r@, i + p@.len()));
            i += p.len();
        } else {
            let ghost antes = out@;
            out.push(t[i]);
            assert(antes + (seq![t@[i as int]] + reemplazar_desde(t@, p@, r@, i + 1)) =~= out@
                + reemplazar_desde(t@, p@, r@, i + 1));
            i += 1;
        }
    }
    assert(out@ + reemplazar_desde(t@, p@, r@, i as int) =~= out@);
    out
}

/// A line without the carriage return that ended it.
pub open spec fn quitar_retorno(l: Seq<char>) -> Seq<char> {
    if l.len() > 0 && l.last() == '\r' {
        l.drop_last()
    } else {
        l
    }
}

/// `str::lines` on `s` from position `i`: split at `\n`, each line without a
/// `\r` that stood before its `\n`, no empty line after a final `\n`.
pub open spec fn lineas_desde(s: Seq<char>, i: int) -> Seq<Seq<char>>
    decreases s.len() - i,
{
    if i < 0 || i >= s.len() {
        Seq::empty()
    } else {
        let j = i + racha(s, i, Clase::NoSalto);
        if j >= s.len() {
            seq![s.subrange(i, s.len() as int)]
        } else {
            seq![quitar_retorno(s.subrange(i, j))] + lineas_desde(s, j + 1)
        }
    }
}

pub open spec fn lineas(s: Seq<char>) -> Seq<Seq<char>> {
    lineas_desde(s, 0)
}

/// The views of a sequence of character vectors.
pub open spec fn vistas(v: Seq<Vec<char>>) -> Seq<Seq<char>> {
    v.map_values(|x: Vec<char>| x@)
}

pub fn lineas_exec(t: &Vec<char>) -> (r: Vec<Vec<char>>)
    ensures
        vistas(r@) == lineas(t@),
{
    let mut r: Vec<Vec<char>> = Vec::new();
    let mut i: usize = 0;
    while i < t.len()
        invariant
            i <= t@.len(),
            vistas(r@) + lineas_desde(t@, i as int) == lineas(t@),
        decreases t@.len() - i,
    {
        let n = contar_racha(t, i, Clase::NoSalto);
        let j = i + n;
        let ghost antes = vistas(r@);
        if j >= t.len() {
            let l = copiar_rango(t, i, t.len());
            r.push(l);
            assert(vistas(r@) =~= antes + seq![t@.subrange(i as int, t@.len() as int)]);
            assert(lineas_desde(t@, t@.len() as int) =~= Seq::<Seq<char>>::empty());
            assert(vistas(r@) + lineas_desde(t@, t@.len() as int) =~= antes + lineas_desde(t@, i as int));
            i = t.len();
        } else {
            let mut l = copiar_rango(t, i, j);
            if l.len() > 0 && l[l.len() - 1] == '\r' {
                l.pop();
                assert(l@ =~= quitar_retorno(t@.subrange(i as int, j as int)));
            }
            r.push(l);
            assert(vistas(r@) =~= antes + seq![quitar_retorno(t@.subrange(i as int, j as int))]);
            assert(vistas(r@) + lineas_desde(t@, j + 1) =~= antes + lineas_desde(t@, i as int));
            i = j + 1;
        }
    }
    assert(lineas_desde(t@, i as int) =~= Seq::<Seq<char>>::empty());
    assert(vistas(r@) + lineas_desde(t@, i as int) =~= vistas(r@));
    r
}

/// What `regex_syntax::is_word_character` answers for `c`: whether `c` is a
/// Unicode word character, the class `\w` of the document grammar.
pub uninterp spec fn es_de_palabra(c: char) -> bool;

/// `regex_syntax::is_word_character`: `c` is alphabetic, a join control, a
/// decimal digit, a mark or a connector punctuation (UTS#18 Annex C). It
/// panics only where the crate was built without its `unicode-perl` feature,
/// which its default features include. The contract names the answer and
/// claims nothing else of it.
#[verifier::external_body]
pub(crate) fn de_palabra(c: char) -> (r: bool)
    ensures
        r == es_de_palabra(c),
{
    regex_syntax::is_word_character(c)
}

/// The value of a string of ASCII digits.
pub open spec fn valor_decimal(s: Seq<char>) -> nat
    decreases s.len(),
{
    if s.len() == 0 {
        0
    } else {
        valor_decimal(s.drop_last()) * 10 + ((s.last() as u32) - ('0' as u32)) as nat
    }
}

/// Every character of `s` is an ASCII digit.
pub open spec fn digitos_ascii(s: Seq<char>) -> bool {
    forall|k: int| 0 <= k < s.len() ==> es_digito_ascii(#[trigger] s[k])
}

/// What `str::parse::<u32>` gives for a run of one to three digits: their
/// value where all are ASCII digits, else nothing.
pub open spec fn numero_leido(s: Seq<char>) -> Option<u32> {
    if digitos_ascii(s) {
        Some(valor_decimal(s) as u32)
    } else {
        None
    }
}

/// Whether `t[i..j]` holds ASCII digits only.
pub fn todos_ascii(t: &Vec<char>, i: usize, j: usize) -> (r: bool)
    requires
        i <= j <= t@.len(),
    ensures
        r == digitos_ascii(t@.subrange(i as int, j as int)),
{
    let mut k = i;
    while k < j
        invariant
            i <= k <= j <= t@.len(),
            forall|m: int| i <= m < k ==> es_digito_ascii(#[trigger] t@[m]),
        decreases j - k,
    {
        if !('0' <= t[k] && t[k] <= '9') {
            assert(t@.subrange(i as int, j as int)[k - i] == t@[k as int]);
            return false;
        }
        k += 1;
    }
    assert forall|m: int| 0 <= m < j - i implies es_digito_ascii(
        #[trigger] t@.subrange(i as int, j as int)[m],
    ) by {
        assert(t@.subrange(i as int, j as int)[m] == t@[i + m]);
    }
    true
}

/// The value of the digits `t[i..j]`, three at most.
pub fn valor_decimal_exec(t: &Vec<char>, i: usize, j: usize) -> (r: u32)
    requires
        i <= j <= t@.len(),
        j - i <= 3,
        forall|k: int| i <= k < j ==> es_digito_ascii(#[trigger] t@[k]),
    ensures
        r == valor_decimal(t@.subrange(i as int, j as int)),
        r < 1000,
{
    let mut v: u32 = 0;
    let mut k = i;
    while k < j
        invariant
            i <= k <= j <= t@.len(),
            j - i <= 3,
            forall|m: int| i <= m < j ==> es_digito_ascii(#[trigger] t@[m]),
            v == valor_decimal(t@.subrange(i as int, k as int)),
            k - i == 0 ==> v == 0,
            k - i == 1 ==> v < 10,
            k - i == 2 ==> v < 100,
            k - i == 3 ==> v < 1000,
        decreases j - k,
    {
        assert(es_digito_ascii(t@[k as int]));
        let d = (t[k] as u32) - ('0' as u32);
        assert(t@.subrange(i as int, k + 1).drop_last() =~= t@.subrange(i as int, k as int));
        assert(t@.subrange(i as int, k + 1).last() == t@[k as int]);
        v = v * 10 + d;
        k += 1;
    }
    v
}

/// `String::from_iter` over the characters of `v`: the string they spell.
#[verifier::external_body]
pub(crate) fn cadena(v: &Vec<char>) -> (r: String)
    ensures
        r@ == v@,
{
    String::from_iter(v.iter())
}

/// The characters of `s`.
pub fn caracteres(s: &str) -> (r: Vec<char>)
    ensures
        r@ == s@,
{
    let mut r: Vec<char> = Vec::new();
    for c in it: s.chars()
        invariant
            r@ == it.seq().take(it.index() as int),
    {
        r.push(c);
        assert(r@ =~= it.seq().take(it.index() + 1));
    }
    r
}

/// A run in `b` is the same run in `a + b`.
pub proof fn lema_racha_desplazada(a: Seq<char>, b: Seq<char>, j: int, k: Clase)
    requires
        0 <= j,
    ensures
        racha(a + b, a.len() + j, k) == racha(b, j, k),
    decreases b.len() - j,
{
    if j < b.len() {
        assert((a + b)[a.len() + j] == b[j]);
        lema_racha_desplazada(a, b, j + 1, k);
    }
}

/// The run at the start of `[c] + t`.
pub proof fn lema_racha_tras_uno(c: char, t: Seq<char>, k: Clase)
    ensures
        racha(seq![c] + t, 0, k) == if en_clase(c, k) { 1 + racha(t, 0, k) } else { 0 },
{
    assert((seq![c] + t)[0] == c);
    lema_racha_desplazada(seq![c], t, 0, k);
}

proof fn lema_ultimo_no_espacio(s: Seq<char>)
    requires
        espacios_finales(s) < s.len(),
    ensures
        !es_espacio(s[s.len() - espacios_finales(s) - 1]),
    decreases s.len(),
{
    if s.len() > 0 && es_espacio(s.last()) {
        let d = s.drop_last();
        lema_ultimo_no_espacio(d);
        assert(d[d.len() - espacios_finales(d) - 1] == s[s.len() - espacios_finales(s) - 1]);
    }
}

/// Trimming a trimmed text changes nothing.
pub proof fn lema_recortar_idempotente(s: Seq<char>)
    ensures
        recortar(recortar(s)) == recortar(s),
        recortar(s).len() > 0 ==> racha(s, 0, Clase::Espacio) < s.len() - espacios_finales(s),
        recortar(s).len() == 0 || recortar(s) == s.subrange(
            racha(s, 0, Clase::Espacio) as int,
            s.len() - espacios_finales(s),
        ),
{
    let a = racha(s, 0, Clase::Espacio);
    lema_racha_acotada(s, 0, Clase::Espacio);
    if a < s.len() {
        lema_finales_tras_no_espacio(s, a as int);
        let b = s.len() - espacios_finales(s);
        let t = s.subrange(a as int, b);
        assert(t[0] == s[a as int]);
        assert(racha(t, 0, Clase::Espacio) == 0);
        lema_ultimo_no_espacio(s);
        assert(t.last() == s[b - 1]);
        assert(espacios_finales(t) == 0);
        assert(t.subrange(0, t.len() as int) =~= t);
    } else {
        assert(racha(Seq::<char>::empty(), 0, Clase::Espacio) == 0);
    }
}

/// A run of class `k` from `i` that ends at `w`, where a character outside the
/// class stands or the text ends, has length `w - i`.
pub proof fn lema_racha_hasta(s: Seq<char>, i: int, w: int, k: Clase)
    requires
        0 <= i <= w <= s.len(),
        forall|m: int| i <= m < w ==> en_clase(#[trigger] s[m], k),
        w == s.len() || !en_clase(s[w], k),
    ensures
        racha(s, i, k) == w - i,
    decreases w - i,
{
    if i < w {
        lema_racha_hasta(s, i + 1, w, k);
    }
}

/// A line of white space alone trims to nothing; one with another character
/// trims to something.
pub proof fn lema_recortar_en_blanco(l: Seq<char>)
    ensures
        (recortar(l).len() == 0) == (forall|m: int| 0 <= m < l.len() ==> es_espacio(#[trigger] l[m])),
{
    lema_racha_acotada(l, 0, Clase::Espacio);
    let a = racha(l, 0, Clase::Espacio);
    if a < l.len() {
        lema_finales_tras_no_espacio(l, a as int);
        assert(!es_espacio(l[a as int]));
    } else {
        assert forall|m: int| 0 <= m < l.len() implies es_espacio(#[trigger] l[m]) by {
            assert(en_clase(l[m], Clase::Espacio));
        }
    }
}

} // verus!
