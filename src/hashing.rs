//! Digests of a whole document or of one subsystem with the registry entries
//! it reaches.

use vstd::prelude::*;
use crate::encoding::{
    closure_marks, enc_types, full_bytes, full_encoding, marks_after, referred, round,
    scoped_bytes, scoped_encoding, subsystems_body,
};
use crate::model::{
    Document, DocumentV14, Subsystem, TypeEntry, roots, same_structure, same_subsystem, upgraded,
};

verus! {

/// The 256-bit xxHash digest of a byte string.
pub uninterp spec fn twox_256_of(b: Seq<u8>) -> Seq<u8>;

/// Relies on sp_crypto_hashing::twox_256: a 32-byte digest that depends on
/// the input bytes alone.
#[verifier::external_body]
fn twox_256(b: &Vec<u8>) -> (r: Vec<u8>)
    ensures
        r@ == twox_256_of(b@),
        r@.len() == 32,
{
    sp_crypto_hashing::twox_256(b.as_slice()).to_vec()
}

/// The digest of a whole document.
pub open spec fn full_digest(d: Document) -> Seq<u8> {
    twox_256_of(full_encoding(d))
}

/// `i` is the position of the first subsystem named `name`.
pub open spec fn named_at(subs: Seq<Subsystem>, name: Seq<char>, i: int) -> bool {
    &&& 0 <= i < subs.len()
    &&& subs[i].name@ == name
    &&& forall|j: int| 0 <= j < i ==> subs[j].name@ != name
}

pub open spec fn has_subsystem(d: Document, name: Seq<char>) -> bool {
    exists|i: int| named_at(d.subsystems@, name, i)
}

/// The digest of the subsystem named `name` with the registry entries it
/// reaches, or none when the document has no such subsystem.
pub open spec fn scoped_digest(d: Document, name: Seq<char>) -> Option<Seq<u8>> {
    if has_subsystem(d, name) {
        let i = choose|i: int| named_at(d.subsystems@, name, i);
        Some(twox_256_of(scoped_encoding(d.types@, d.subsystems@[i])))
    } else {
        None
    }
}

/// Hashes a whole document: every subsystem and every registry entry that
/// a subsystem reaches.
pub fn hash_full(d: &Document) -> (r: Vec<u8>)
    ensures
        r@ == full_digest(*d),
        r@.len() == 32,
{
    let b = full_bytes(d);
    twox_256(&b)
}

/// The position of the first subsystem named `name`, if any.
pub fn find_subsystem(d: &Document, name: &String) -> (r: Option<usize>)
    ensures
        r is None <==> !has_subsystem(*d, name@),
        r matches Some(i) ==> named_at(d.subsystems@, name@, i as int),
{
    let mut i: usize = 0;
    while i < d.subsystems.len()
        invariant
            i <= d.subsystems@.len(),
            forall|j: int| 0 <= j < i ==> d.subsystems@[j].name@ != name@,
        decreases d.subsystems@.len() - i,
    {
        if d.subsystems[i].name == *name {
            assert(named_at(d.subsystems@, name@, i as int));
            return Some(i);
        }
        i = i + 1;
    }
    None
}

proof fn lemma_named_at_unique(subs: Seq<Subsystem>, name: Seq<char>, i: int, j: int)
    requires
        named_at(subs, name, i),
        named_at(subs, name, j),
    ensures
        i == j,
{
}

/// Hashes the subsystem named `name` together with the registry entries it
/// reaches; none when the document has no subsystem of that name.
pub fn hash_subsystem(d: &Document, name: &String) -> (r: Option<Vec<u8>>)
    ensures
        r is None <==> !has_subsystem(*d, name@),
        r matches Some(h) ==> scoped_digest(*d, name@) == Some(h@) && h@.len() == 32,
        r is None ==> scoped_digest(*d, name@) is None,
{
    match find_subsystem(d, name) {
        None => None,
        Some(i) => {
            let b = scoped_bytes(&d.types, &d.subsystems[i]);
            let h = twox_256(&b);
            proof {
                let c = choose|c: int| named_at(d.subsystems@, name@, c);
                lemma_named_at_unique(d.subsystems@, name@, i as int, c);
            }
            Some(h)
        },
    }
}

proof fn lemma_same_subsystem_encoding(types: Seq<TypeEntry>, a: Subsystem, b: Subsystem)
    requires
        same_subsystem(a, b),
    ensures
        scoped_encoding(types, a) == scoped_encoding(types, b),
{
    assert(roots(a) == roots(b));
}

proof fn lemma_body_structural(types: Seq<TypeEntry>, a: Seq<Subsystem>, b: Seq<Subsystem>)
    requires
        a.len() == b.len(),
        forall|i: int| 0 <= i < a.len() ==> #[trigger] same_subsystem(a[i], b[i]),
    ensures
        subsystems_body(types, a) == subsystems_body(types, b),
    decreases a.len(),
{
    if a.len() > 0 {
        let n = a.len() - 1;
        assert(same_subsystem(a[n], b[n]));
        lemma_same_subsystem_encoding(types, a.last(), b.last());
        assert forall|i: int| 0 <= i < a.drop_last().len() implies #[trigger] same_subsystem(
            a.drop_last()[i],
            b.drop_last()[i],
        ) by {
            assert(same_subsystem(a[i], b[i]));
        }
        lemma_body_structural(types, a.drop_last(), b.drop_last());
    }
}

/// Two documents that describe the same structure (documentation aside) have
/// the same digest, whole and for every subsystem name; hashing is a function
/// of the document.
pub proof fn lemma_structural_digest(a: Document, b: Document, name: Seq<char>)
    requires
        same_structure(a, b),
    ensures
        full_digest(a) == full_digest(b),
        scoped_digest(a, name) == scoped_digest(b, name),
{
    lemma_body_structural(a.types@, a.subsystems@, b.subsystems@);
    assert(full_encoding(a) == full_encoding(b));
    if has_subsystem(a, name) {
        let i = choose|i: int| named_at(a.subsystems@, name, i);
        assert(same_subsystem(a.subsystems@[i], b.subsystems@[i]));
        assert forall|j: int| 0 <= j < i implies b.subsystems@[j].name@ != name by {
            assert(same_subsystem(a.subsystems@[j], b.subsystems@[j]));
        }
        assert(named_at(b.subsystems@, name, i));
        let k = choose|k: int| named_at(b.subsystems@, name, k);
        lemma_named_at_unique(b.subsystems@, name, i, k);
        lemma_same_subsystem_encoding(a.types@, a.subsystems@[i], b.subsystems@[i]);
    } else {
        assert forall|i: int| !named_at(b.subsystems@, name, i) by {
            if named_at(b.subsystems@, name, i) {
                assert(same_subsystem(a.subsystems@[i], b.subsystems@[i]));
                assert forall|j: int| 0 <= j < i implies a.subsystems@[j].name@ != name by {
                    assert(same_subsystem(a.subsystems@[j], b.subsystems@[j]));
                }
                assert(named_at(a.subsystems@, name, i));
            }
        }
    }
}

/// `e`, a canonical document, describes what the older document `o` does:
/// the same registry and pairwise the same subsystems (documentation aside).
pub open spec fn equivalent_versions(o: DocumentV14, e: Document) -> bool {
    &&& e.types@ == o.types@
    &&& e.subsystems@.len() == o.subsystems@.len()
    &&& forall|i: int|
        0 <= i < o.subsystems@.len() ==> {
            let x = #[trigger] o.subsystems@[i];
            let y = e.subsystems@[i];
            &&& x.name@ == y.name@
            &&& x.shape@ == y.shape@
            &&& x.refs@ == y.refs@
            &&& x.error == y.error
        }
}

/// Normalising an older document and hashing it gives what hashing the
/// equivalent canonical document gives, whole and for every subsystem name.
pub proof fn lemma_cross_version(o: DocumentV14, d: Document, e: Document, name: Seq<char>)
    requires
        upgraded(o, d),
        equivalent_versions(o, e),
    ensures
        full_digest(d) == full_digest(e),
        scoped_digest(d, name) == scoped_digest(e, name),
{
    assert forall|i: int| 0 <= i < d.subsystems@.len() implies #[trigger] same_subsystem(
        d.subsystems@[i],
        e.subsystems@[i],
    ) by {
        let x = o.subsystems@[i];
        assert(crate::model::upgraded_subsystem(x, d.subsystems@[i]));
    }
    lemma_structural_digest(d, e, name);
}

proof fn lemma_round_agree(ta: Seq<TypeEntry>, tb: Seq<TypeEntry>, m: Seq<bool>)
    requires
        ta.len() == tb.len(),
        m.len() == ta.len(),
        forall|i: int| 0 <= i < m.len() && m[i] ==> ta[i].refs@ == tb[i].refs@,
    ensures
        round(ta, m) == round(tb, m),
{
    assert forall|j: int| 0 <= j < m.len() implies referred(ta, m, j) == referred(tb, m, j) by {
        if referred(ta, m, j) {
            let i = choose|i: int|
                0 <= i < m.len() && i < ta.len() && m[i] && #[trigger] ta[i].refs@.contains(
                    j as usize,
                );
            assert(tb[i].refs@.contains(j as usize));
        }
        if referred(tb, m, j) {
            let i = choose|i: int|
                0 <= i < m.len() && i < tb.len() && m[i] && #[trigger] tb[i].refs@.contains(
                    j as usize,
                );
            assert(ta[i].refs@.contains(j as usize));
        }
    }
    assert(round(ta, m) =~= round(tb, m));
}

proof fn lemma_marks_grow(t: Seq<TypeEntry>, rs: Seq<usize>, k: nat, n: nat, j: int)
    requires
        k <= n,
        0 <= j < marks_after(t, rs, k).len(),
        marks_after(t, rs, k)[j],
    ensures
        j < marks_after(t, rs, n).len(),
        marks_after(t, rs, n)[j],
    decreases n,
{
    if k < n {
        lemma_marks_grow(t, rs, k, (n - 1) as nat, j);
    }
}

proof fn lemma_marks_agree(ta: Seq<TypeEntry>, tb: Seq<TypeEntry>, rs: Seq<usize>, k: nat)
    requires
        ta.len() == tb.len(),
        k <= ta.len(),
        forall|i: int|
            0 <= i < ta.len() && #[trigger] closure_marks(ta, rs)[i] ==> ta[i] == tb[i],
    ensures
        marks_after(ta, rs, k) == marks_after(tb, rs, k),
        marks_after(ta, rs, k).len() == ta.len(),
    decreases k,
{
    if k > 0 {
        lemma_marks_agree(ta, tb, rs, (k - 1) as nat);
        let m = marks_after(ta, rs, (k - 1) as nat);
        assert forall|i: int| 0 <= i < m.len() && m[i] implies ta[i].refs@ == tb[i].refs@ by {
            lemma_marks_grow(ta, rs, (k - 1) as nat, ta.len(), i);
            assert(closure_marks(ta, rs)[i]);
        }
        lemma_round_agree(ta, tb, m);
    } else {
        assert(crate::encoding::init_marks(ta.len(), rs) =~= crate::encoding::init_marks(
            tb.len(),
            rs,
        ));
    }
}

proof fn lemma_enc_types_agree(ta: Seq<TypeEntry>, tb: Seq<TypeEntry>, m: Seq<bool>, k: nat)
    requires
        k <= m.len(),
        k <= ta.len(),
        k <= tb.len(),
        forall|i: int| 0 <= i < k && #[trigger] m[i] ==> ta[i] == tb[i],
    ensures
        enc_types(ta, m, k) == enc_types(tb, m, k),
    decreases k,
{
    if k > 0 {
        lemma_enc_types_agree(ta, tb, m, (k - 1) as nat);
    }
}

/// A subsystem's digest does not change when other subsystems change, or
/// registry entries that it does not reach: here `a` and `b` hold the same
/// subsystem named `name` (at positions `i` and `k`) and agree on every
/// registry entry that it reaches in `a`.
pub proof fn lemma_scoped_digest_local(a: Document, b: Document, name: Seq<char>, i: int, k: int)
    requires
        named_at(a.subsystems@, name, i),
        named_at(b.subsystems@, name, k),
        same_subsystem(a.subsystems@[i], b.subsystems@[k]),
        a.types@.len() == b.types@.len(),
        forall|t: int|
            0 <= t < a.types@.len() && #[trigger] closure_marks(
                a.types@,
                roots(a.subsystems@[i]),
            )[t] ==> a.types@[t] == b.types@[t],
    ensures
        scoped_digest(a, name) == scoped_digest(b, name),
        scoped_digest(a, name) is Some,
{
    let sa = a.subsystems@[i];
    let sb = b.subsystems@[k];
    let ta = a.types@;
    let tb = b.types@;
    let ca = choose|c: int| named_at(a.subsystems@, name, c);
    lemma_named_at_unique(a.subsystems@, name, i, ca);
    let cb = choose|c: int| named_at(b.subsystems@, name, c);
    lemma_named_at_unique(b.subsystems@, name, k, cb);
    assert(roots(sa) == roots(sb));
    lemma_marks_agree(ta, tb, roots(sa), ta.len());
    let m = closure_marks(ta, roots(sa));
    assert(closure_marks(tb, roots(sb)) == m);
    lemma_enc_types_agree(ta, tb, m, ta.len());
    lemma_same_subsystem_encoding(tb, sa, sb);
}

} // verus!
