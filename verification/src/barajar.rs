//! Putting items in an order drawn at random: each index gets a random key and
//! the items are ordered by key, equal keys by index.
use vstd::prelude::*;
use std::collections::hash_map::{RandomState, DefaultHasher};
use std::hash::{BuildHasher, Hasher};
use vstd::std_specs::hash::DefaultHasherAdditionalSpecFns;

verus! {

broadcast use vstd::seq_lib::group_to_multiset_ensures;

/// The first place in `r`, from `j` on, whose index has a key greater than `k`.
pub open spec fn posicion_clave(r: Seq<int>, c: Seq<u64>, k: u64, j: int) -> int
    decreases r.len() - j,
{
    if j < 0 || j >= r.len() {
        r.len() as int
    } else if c[r[j]] > k {
        j
    } else {
        posicion_clave(r, c, k, j + 1)
    }
}

/// The indices `0..n` ordered by their keys in `c`, equal keys in the order of
/// their indices (the stable `sort_by_key` of the pairs `(c[i], i)`).
pub open spec fn orden_por_claves(c: Seq<u64>, n: int) -> Seq<int>
    decreases n,
{
    if n <= 0 {
        Seq::empty()
    } else {
        let r = orden_por_claves(c, n - 1);
        r.insert(posicion_clave(r, c, c[n - 1], 0), n - 1)
    }
}

/// `s` in the order that the keys `c` give its indices.
pub open spec fn barajado<A>(s: Seq<A>, c: Seq<u64>) -> Seq<A> {
    orden_por_claves(c, s.len() as int).map_values(|i: int| s[i])
}

pub proof fn lema_posicion_clave(r: Seq<int>, c: Seq<u64>, k: u64, j: int)
    requires
        0 <= j <= r.len(),
    ensures
        j <= posicion_clave(r, c, k, j) <= r.len(),
    decreases r.len() - j,
{
    if j < r.len() && c[r[j]] <= k {
        lema_posicion_clave(r, c, k, j + 1);
    }
}

pub proof fn lema_orden_indices(c: Seq<u64>, n: int)
    requires
        0 <= n,
    ensures
        orden_por_claves(c, n).len() == n,
        forall|j: int| 0 <= j < n ==> 0 <= #[trigger] orden_por_claves(c, n)[j] < n,
    decreases n,
{
    if n > 0 {
        lema_orden_indices(c, n - 1);
        let r = orden_por_claves(c, n - 1);
        lema_posicion_clave(r, c, c[n - 1], 0);
        let p = posicion_clave(r, c, c[n - 1], 0);
        assert forall|j: int| 0 <= j < n implies 0 <= #[trigger] orden_por_claves(c, n)[j] < n by {
            if j < p {
                assert(orden_por_claves(c, n)[j] == r[j]);
            } else if j > p {
                assert(orden_por_claves(c, n)[j] == r[j - 1]);
            }
        }
    }
}

/// Index `a` comes before index `b` by their keys, equal keys by index.
pub open spec fn antes_por_clave(c: Seq<u64>, a: int, b: int) -> bool {
    c[a] < c[b] || (c[a] == c[b] && a < b)
}

proof fn lema_posicion_clave_cota(r: Seq<int>, c: Seq<u64>, k: u64, j: int)
    requires
        0 <= j <= r.len(),
    ensures
        forall|m: int| j <= m < posicion_clave(r, c, k, j) ==> c[#[trigger] r[m]] <= k,
        posicion_clave(r, c, k, j) < r.len() ==> c[r[posicion_clave(r, c, k, j)]] > k,
    decreases r.len() - j,
{
    if j < r.len() && c[r[j]] <= k {
        lema_posicion_clave_cota(r, c, k, j + 1);
    }
}

/// The order the keys give: each index of `0..n` once, and an index before
/// another exactly when its key is smaller, or equal with a smaller index.
pub proof fn lema_orden_por_claves(c: Seq<u64>, n: int)
    requires
        0 <= n <= c.len(),
    ensures
        orden_por_claves(c, n).len() == n,
        forall|i: int| 0 <= i < n ==> orden_por_claves(c, n).contains(i),
        forall|j: int, k: int|
            0 <= j < k < n ==> antes_por_clave(
                c,
                #[trigger] orden_por_claves(c, n)[j],
                #[trigger] orden_por_claves(c, n)[k],
            ),
    decreases n,
{
    lema_orden_indices(c, n);
    if n > 0 {
        lema_orden_por_claves(c, n - 1);
        lema_orden_indices(c, n - 1);
        let r = orden_por_claves(c, n - 1);
        let x = n - 1;
        lema_posicion_clave(r, c, c[x], 0);
        lema_posicion_clave_cota(r, c, c[x], 0);
        let p = posicion_clave(r, c, c[x], 0);
        let t = r.insert(p, x);
        assert(t == orden_por_claves(c, n));
        assert forall|i: int| 0 <= i < n implies t.contains(i) by {
            if i == x {
                assert(t[p] == x);
            } else {
                assert(r.contains(i));
                let m = choose|m: int| 0 <= m < r.len() && r[m] == i;
                if m < p {
                    assert(t[m] == i);
                } else {
                    assert(t[m + 1] == i);
                }
            }
        }
        assert forall|j: int, k: int| 0 <= j < k < n implies antes_por_clave(
            c,
            #[trigger] t[j],
            #[trigger] t[k],
        ) by {
            if k < p {
                assert(t[j] == r[j] && t[k] == r[k]);
            } else if k == p {
                assert(t[j] == r[j]);
                assert(0 <= r[j] < x);
            } else if j < p {
                assert(t[j] == r[j] && t[k] == r[k - 1]);
                if j < p && p <= k - 1 {
                    if p < k - 1 {
                        assert(antes_por_clave(c, r[p], r[k - 1]));
                    }
                    assert(antes_por_clave(c, r[j], r[k - 1])) by {
                        if p == k - 1 {
                        } else {
                            assert(antes_por_clave(c, r[j], r[p]));
                        }
                    }
                }
            } else if j == p {
                assert(t[k] == r[k - 1]);
                assert(c[r[p]] > c[x]);
                if p < k - 1 {
                    assert(antes_por_clave(c, r[p], r[k - 1]));
                }
            } else {
                assert(t[j] == r[j - 1] && t[k] == r[k - 1]);
            }
        }
    }
}

/// `RandomState::new`: hash keys seeded at random for this call. Nothing is
/// claimed of the state.
#[verifier::external_body]
fn estado_aleatorio() -> (r: RandomState) {
    RandomState::new()
}

/// `BuildHasher::build_hasher` on a random state. Nothing is claimed of the
/// hasher it gives.
#[verifier::external_body]
fn construir_hasher(estado: &RandomState) -> (r: DefaultHasher) {
    estado.build_hasher()
}

/// `Hasher::write_usize`: feeds `i` to the hasher. What the hasher's state
/// becomes is left unsaid.
#[verifier::external_body]
fn escribir_indice(h: &mut DefaultHasher, i: usize) {
    h.write_usize(i)
}

/// Every key is a hash: what `DefaultHasher::finish` gives for some state of
/// the hasher. (A key made up without hashing, such as a constant, is no such
/// value as far as anything here shows.)
pub open spec fn claves_de_hash(c: Seq<u64>) -> bool {
    forall|i: int| 0 <= i < c.len() ==> es_hash(#[trigger] c[i])
}

/// `x` is what `DefaultHasher::finish` gives for some state of the hasher.
pub open spec fn es_hash(x: u64) -> bool {
    exists|v: Seq<Seq<u8>>| x == #[trigger] DefaultHasher::spec_finish(v)
}

/// `n` keys drawn at random: the hashes of the indices `0..n` under one random
/// state. Their number is known, and that each is a hash; their values rest on
/// the random state.
pub fn claves_aleatorias(n: usize) -> (r: Vec<u64>)
    ensures
        r@.len() == n,
        claves_de_hash(r@),
{
    let estado = estado_aleatorio();
    let mut r: Vec<u64> = Vec::new();
    let mut i: usize = 0;
    while i < n
        invariant
            i <= n,
            r@.len() == i,
            claves_de_hash(r@),
        decreases n - i,
    {
        let mut h = construir_hasher(&estado);
        escribir_indice(&mut h, i);
        let clave = h.finish();
        let ghost antes = r@;
        r.push(clave);
        proof {
            assert(clave == DefaultHasher::spec_finish(h@));
            assert forall|k: int| 0 <= k < r@.len() implies es_hash(#[trigger] r@[k]) by {
                if k < antes.len() {
                    assert(r@[k] == antes[k]);
                } else {
                    assert(r@[k] == DefaultHasher::spec_finish(h@));
                }
            }
        }
        i += 1;
    }
    r
}

/// Orders `v` by the keys `claves` of its indices (`barajado`).
pub fn ordenar_por_claves<T>(v: &mut Vec<T>, claves: &Vec<u64>)
    requires
        old(v)@.len() == claves@.len(),
    ensures
        final(v)@ == barajado(old(v)@, claves@),
        final(v)@.to_multiset() == old(v)@.to_multiset(),
{
    let ghost orig = v@;
    let ghost c = claves@;
    let n = v.len();
    let mut pares: Vec<(u64, usize, T)> = Vec::new();
    let mut i: usize = 0;
    while v.len() > 0
        invariant
            n == orig.len(),
            c == claves@,
            c.len() == n,
            i + v@.len() == n,
            v@ == orig.skip(i as int),
            pares@.len() == i,
            pares@.map_values(|p: (u64, usize, T)| p.1 as int) == orden_por_claves(c, i as int),
            forall|j: int|
                0 <= j < pares@.len() ==> (#[trigger] pares@[j]).1 < i && pares@[j].0 == c[pares@[j].1 as int]
                    && pares@[j].2 == orig[pares@[j].1 as int],
            v@.to_multiset().add(pares@.map_values(|p: (u64, usize, T)| p.2).to_multiset())
                == orig.to_multiset(),
        decreases v@.len(),
    {
        let ghost antes = pares@;
        let ghost indices = pares@.map_values(|p: (u64, usize, T)| p.1 as int);
        let ghost v_antes = v@;
        let x = v.remove(0);
        assert(v@ =~= orig.skip(i + 1));
        assert(x == orig[i as int]);
        let k = claves[i];
        let mut j: usize = 0;
        while j < pares.len() && pares[j].0 <= k
            invariant
                j <= pares@.len(),
                pares@ == antes,
                indices == antes.map_values(|p: (u64, usize, T)| p.1 as int),
                forall|m: int|
                    0 <= m < antes.len() ==> (#[trigger] antes[m]).0 == c[antes[m].1 as int],
                posicion_clave(indices, c, k, 0) == posicion_clave(indices, c, k, j as int),
            decreases pares@.len() - j,
        {
            assert(indices[j as int] == antes[j as int].1 as int);
            j += 1;
        }
        proof {
            if j < antes.len() {
                assert(indices[j as int] == antes[j as int].1 as int);
            }
        }
        pares.insert(j, (k, i, x));
        proof {
            assert(pares@.map_values(|p: (u64, usize, T)| p.1 as int) =~= indices.insert(
                j as int,
                i as int,
            ));
            assert(orden_por_claves(c, i + 1) == indices.insert(
                posicion_clave(indices, c, c[i as int], 0),
                i as int,
            ));
            assert forall|m: int| 0 <= m < pares@.len() implies (#[trigger] pares@[m]).1 < i + 1
                && pares@[m].0 == c[pares@[m].1 as int] && pares@[m].2 == orig[pares@[m].1 as int] by {
                if m < j {
                    assert(pares@[m] == antes[m]);
                } else if m > j {
                    assert(pares@[m] == antes[m - 1]);
                }
            }
            assert(pares@.map_values(|p: (u64, usize, T)| p.2) =~= antes.map_values(
                |p: (u64, usize, T)| p.2,
            ).insert(j as int, x));
            assert(v_antes.remove(0) =~= v@);
            assert(v@.to_multiset() == v_antes.to_multiset().remove(x));
            assert(v_antes.to_multiset().contains(x));
            assert(v@.to_multiset().add(pares@.map_values(|p: (u64, usize, T)| p.2).to_multiset())
                =~= v_antes.to_multiset().add(
                antes.map_values(|p: (u64, usize, T)| p.2).to_multiset(),
            ));
        }
        i += 1;
    }
    let ghost ordenados = pares@;
    assert(v@ =~= Seq::<T>::empty());
    let mut k: usize = 0;
    while pares.len() > 0
        invariant
            k + pares@.len() == n,
            pares@ == ordenados.skip(k as int),
            ordenados.len() == n,
            v@ == ordenados.take(k as int).map_values(|p: (u64, usize, T)| p.2),
        decreases pares@.len(),
    {
        let ghost antes = pares@;
        let p = pares.remove(0);
        assert(pares@ =~= ordenados.skip(k + 1));
        assert(p == ordenados[k as int]);
        v.push(p.2);
        assert(v@ =~= ordenados.take(k + 1).map_values(|p: (u64, usize, T)| p.2));
        k += 1;
    }
    proof {
        assert(ordenados.take(n as int) =~= ordenados);
        lema_orden_indices(c, n as int);
        assert(v@ =~= barajado(orig, c)) by {
            assert forall|m: int| 0 <= m < n implies v@[m] == barajado(orig, c)[m] by {
                assert(orden_por_claves(c, n as int)[m] == ordenados[m].1 as int);
            }
        }
        assert(v@ =~= ordenados.map_values(|p: (u64, usize, T)| p.2));
    }
}

/// Puts `v` in an order drawn at random; its items stay the same.
pub fn barajar<T>(v: &mut Vec<T>)
    ensures
        exists|c: Seq<u64>|
            c.len() == old(v)@.len() && claves_de_hash(c) && final(v)@ == barajado(old(v)@, c),
        final(v)@.to_multiset() == old(v)@.to_multiset(),
        final(v)@.len() == old(v)@.len(),
{
    let claves = claves_aleatorias(v.len());
    ordenar_por_claves(v, &claves);
    proof {
        lema_orden_indices(claves@, old(v)@.len() as int);
    }
}

proof fn lema_insertar_multiconjunto<A>(x: Seq<A>, p: int, y: A)
    requires
        0 <= p <= x.len(),
    ensures
        x.insert(p, y).to_multiset() == x.to_multiset().insert(y),
{
    broadcast use vstd::multiset::group_multiset_axioms;

    let a = x.take(p);
    let b = x.skip(p);
    assert(x.insert(p, y) =~= a + (seq![y] + b));
    assert(x =~= a + b);
    vstd::seq_lib::lemma_multiset_commutative(a, seq![y] + b);
    vstd::seq_lib::lemma_multiset_commutative(seq![y], b);
    vstd::seq_lib::lemma_multiset_commutative(a, b);
    assert(seq![y] =~= Seq::<A>::empty().push(y));
    assert(x.insert(p, y).to_multiset() =~= x.to_multiset().insert(y));
}

proof fn lema_prefijo_barajado<A>(s: Seq<A>, c: Seq<u64>, n: int)
    requires
        0 <= n <= s.len(),
        c.len() == s.len(),
    ensures
        orden_por_claves(c, n).map_values(|i: int| s[i]).to_multiset() == s.take(n).to_multiset(),
    decreases n,
{
    if n == 0 {
        assert(orden_por_claves(c, n).map_values(|i: int| s[i]) =~= Seq::<A>::empty());
        assert(s.take(n) =~= Seq::<A>::empty());
    } else {
        lema_prefijo_barajado(s, c, n - 1);
        let r = orden_por_claves(c, n - 1);
        lema_orden_indices(c, n - 1);
        lema_posicion_clave(r, c, c[n - 1], 0);
        let p = posicion_clave(r, c, c[n - 1], 0);
        let x = r.map_values(|i: int| s[i]);
        assert(orden_por_claves(c, n).map_values(|i: int| s[i]) =~= x.insert(p, s[n - 1]));
        lema_insertar_multiconjunto(x, p, s[n - 1]);
        assert(s.take(n) =~= s.take(n - 1).push(s[n - 1]));
    }
}

/// Ordering by keys keeps every item: the same multiset.
pub proof fn lema_barajado_multiconjunto<A>(s: Seq<A>, c: Seq<u64>)
    requires
        c.len() == s.len(),
    ensures
        barajado(s, c).to_multiset() == s.to_multiset(),
        barajado(s, c).len() == s.len(),
{
    lema_prefijo_barajado(s, c, s.len() as int);
    lema_orden_indices(c, s.len() as int);
    assert(s.take(s.len() as int) =~= s);
}

} // verus!
