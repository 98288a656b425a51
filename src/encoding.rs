//! The byte encodings that digests are taken over, and the type closure that
//! scopes a subsystem's encoding to the registry entries it reaches.

use vstd::prelude::*;
use vstd::utf8::encode_utf8;
use crate::model::{Document, Subsystem, TypeEntry, roots};

verus! {

/// The low `k` bytes of `n`, least significant first.
pub open spec fn le_bytes(n: nat, k: nat) -> Seq<u8>
    decreases k,
{
    if k == 0 {
        Seq::empty()
    } else {
        seq![(n % 256) as u8] + le_bytes(n / 256, (k - 1) as nat)
    }
}

/// A number as eight little-endian bytes.
pub open spec fn enc_num(n: usize) -> Seq<u8> {
    le_bytes(n as nat, 8)
}

/// A byte string, prefixed by its length.
pub open spec fn enc_bytes(b: Seq<u8>) -> Seq<u8> {
    enc_num(b.len() as usize) + b
}

pub open spec fn nums_body(v: Seq<usize>) -> Seq<u8>
    decreases v.len(),
{
    if v.len() == 0 {
        Seq::empty()
    } else {
        nums_body(v.drop_last()) + enc_num(v.last())
    }
}

/// A list of numbers, prefixed by its length.
pub open spec fn enc_nums(v: Seq<usize>) -> Seq<u8> {
    enc_num(v.len() as usize) + nums_body(v)
}

/// A registry entry together with its index.
pub open spec fn enc_type(i: usize, t: TypeEntry) -> Seq<u8> {
    enc_num(i) + enc_bytes(t.shape@) + enc_nums(t.refs@)
}

pub open spec fn enc_error(e: Option<usize>) -> Seq<u8> {
    match e {
        Some(x) => seq![1u8] + enc_num(x),
        None => seq![0u8],
    }
}

/// A subsystem's own part: name (UTF-8), structure, references, error type.
/// Documentation is left out.
pub open spec fn enc_subsystem(s: Subsystem) -> Seq<u8> {
    enc_bytes(encode_utf8(s.name@)) + enc_bytes(s.shape@) + enc_nums(s.refs@) + enc_error(
        s.error,
    )
}

fn push_num(out: &mut Vec<u8>, n: usize)
    ensures
        final(out)@ == old(out)@ + enc_num(n),
{
    let mut v: u64 = n as u64;
    let mut k: usize = 0;
    while k < 8
        invariant
            k <= 8,
            out@ + le_bytes(v as nat, (8 - k) as nat) == old(out)@ + enc_num(n),
        decreases 8 - k,
    {
        let ghost before = out@;
        let b = (v % 256) as u8;
        out.push(b);
        assert(le_bytes(v as nat, (8 - k) as nat) == seq![b] + le_bytes(
            (v / 256) as nat,
            (8 - k - 1) as nat,
        ));
        assert(out@ + le_bytes((v / 256) as nat, (8 - k - 1) as nat) =~= before + (seq![b]
            + le_bytes((v / 256) as nat, (8 - k - 1) as nat)));
        v = v / 256;
        k = k + 1;
    }
    assert(out@ + le_bytes(v as nat, 0) =~= out@);
}

fn push_bytes(out: &mut Vec<u8>, b: &[u8])
    ensures
        final(out)@ == old(out)@ + enc_bytes(b@),
{
    push_num(out, b.len());
    let ghost start = out@;
    let mut i: usize = 0;
    while i < b.len()
        invariant
            i <= b@.len(),
            out@ == start + b@.subrange(0, i as int),
        decreases b@.len() - i,
    {
        out.push(b[i]);
        assert(b@.subrange(0, i + 1) =~= b@.subrange(0, i as int).push(b@[i as int]));
        assert(out@ =~= start + b@.subrange(0, i + 1));
        i = i + 1;
    }
    assert(b@.subrange(0, b@.len() as int) =~= b@);
    assert(out@ =~= old(out)@ + enc_bytes(b@));
}

fn push_nums(out: &mut Vec<u8>, v: &Vec<usize>)
    ensures
        final(out)@ == old(out)@ + enc_nums(v@),
{
    push_num(out, v.len());
    let ghost start = out@;
    let mut i: usize = 0;
    while i < v.len()
        invariant
            i <= v@.len(),
            out@ == start + nums_body(v@.subrange(0, i as int)),
        decreases v@.len() - i,
    {
        let ghost before = out@;
        push_num(out, v[i]);
        let ghost p = v@.subrange(0, i + 1);
        assert(p.drop_last() =~= v@.subrange(0, i as int));
        assert(out@ =~= start + nums_body(p));
        i = i + 1;
    }
    assert(v@.subrange(0, v@.len() as int) =~= v@);
    assert(out@ =~= old(out)@ + enc_nums(v@));
}

fn push_type(out: &mut Vec<u8>, i: usize, t: &TypeEntry)
    ensures
        final(out)@ == old(out)@ + enc_type(i, *t),
{
    push_num(out, i);
    push_bytes(out, t.shape.as_slice());
    push_nums(out, &t.refs);
    assert(out@ =~= old(out)@ + enc_type(i, *t));
}

fn push_subsystem(out: &mut Vec<u8>, s: &Subsystem)
    ensures
        final(out)@ == old(out)@ + enc_subsystem(*s),
{
    push_bytes(out, s.name.as_str().as_bytes());
    push_bytes(out, s.shape.as_slice());
    push_nums(out, &s.refs);
    match s.error {
        Some(e) => {
            out.push(1u8);
            push_num(out, e);
        },
        None => {
            out.push(0u8);
        },
    }
    assert(out@ =~= old(out)@ + enc_subsystem(*s));
}

/// Registry indices marked from the start: those among `rs` below `n`.
pub open spec fn init_marks(n: nat, rs: Seq<usize>) -> Seq<bool> {
    Seq::new(n, |j: int| rs.contains(j as usize))
}

/// `j` is referred to by some marked registry entry.
pub open spec fn referred(types: Seq<TypeEntry>, m: Seq<bool>, j: int) -> bool {
    exists|i: int| 0 <= i < m.len() && i < types.len() && m[i] && #[trigger] types[i].refs@.contains(j as usize)
}

/// One round of the closure: also mark every entry a marked entry refers to.
pub open spec fn round(types: Seq<TypeEntry>, m: Seq<bool>) -> Seq<bool> {
    Seq::new(m.len(), |j: int| m[j] || referred(types, m, j))
}

pub open spec fn marks_after(types: Seq<TypeEntry>, rs: Seq<usize>, k: nat) -> Seq<bool>
    decreases k,
{
    if k == 0 {
        init_marks(types.len(), rs)
    } else {
        round(types, marks_after(types, rs, (k - 1) as nat))
    }
}

/// The registry entries reachable from `rs`: as many rounds as the registry
/// has entries, which every path without repetition fits in.
pub open spec fn closure_marks(types: Seq<TypeEntry>, rs: Seq<usize>) -> Seq<bool> {
    marks_after(types, rs, types.len())
}

/// The marked registry entries among the first `k`, each with its index.
pub open spec fn enc_types(types: Seq<TypeEntry>, m: Seq<bool>, k: nat) -> Seq<u8>
    decreases k,
{
    if k == 0 {
        Seq::empty()
    } else {
        enc_types(types, m, (k - 1) as nat) + if m[k - 1] {
            enc_type((k - 1) as usize, types[k - 1])
        } else {
            Seq::empty()
        }
    }
}

/// What a subsystem's digest is taken over: the subsystem's own part, then
/// every registry entry it reaches, and nothing else of the document.
pub open spec fn scoped_encoding(types: Seq<TypeEntry>, s: Subsystem) -> Seq<u8> {
    enc_subsystem(s) + enc_types(types, closure_marks(types, roots(s)), types.len())
}

pub open spec fn subsystems_body(types: Seq<TypeEntry>, subs: Seq<Subsystem>) -> Seq<u8>
    decreases subs.len(),
{
    if subs.len() == 0 {
        Seq::empty()
    } else {
        subsystems_body(types, subs.drop_last()) + scoped_encoding(types, subs.last())
    }
}

/// What a whole document's digest is taken over: the number of subsystems,
/// then each subsystem's scoped encoding in order.
pub open spec fn full_encoding(d: Document) -> Seq<u8> {
    enc_num(d.subsystems@.len() as usize) + subsystems_body(d.types@, d.subsystems@)
}

fn initial_marks(n: usize, s: &Subsystem) -> (m: Vec<bool>)
    ensures
        m@ == init_marks(n as nat, roots(*s)),
{
    let mut m: Vec<bool> = Vec::new();
    let mut j: usize = 0;
    while j < n
        invariant
            j <= n,
            m@.len() == j,
            forall|x: int| 0 <= x < j ==> !m@[x],
        decreases n - j,
    {
        m.push(false);
        j = j + 1;
    }
    let mut k: usize = 0;
    while k < s.refs.len()
        invariant
            k <= s.refs@.len(),
            m@.len() == n,
            forall|x: int| 0 <= x < n ==> m@[x] == s.refs@.subrange(0, k as int).contains(x as usize),
        decreases s.refs@.len() - k,
    {
        let r = s.refs[k];
        if r < n {
            m[r] = true;
        }
        assert forall|x: int| 0 <= x < n implies m@[x] == s.refs@.subrange(0, k + 1).contains(x as usize) by {
            assert(s.refs@.subrange(0, k + 1) =~= s.refs@.subrange(0, k as int).push(r));
            lemma_push_contains(s.refs@.subrange(0, k as int), r, x as usize);
        }
        k = k + 1;
    }
    assert(s.refs@.subrange(0, s.refs@.len() as int) =~= s.refs@);
    if let Some(e) = s.error {
        if e < n {
            m[e] = true;
        }
    }
    assert forall|x: int| 0 <= x < n implies m@[x] == roots(*s).contains(x as usize) by {
        let rs = roots(*s);
        if s.refs@.contains(x as usize) {
            let w = choose|w: int| 0 <= w < s.refs@.len() && s.refs@[w] == x as usize;
            assert(rs[w] == x as usize);
        }
        if s.error == Some(x as usize) {
            assert(rs[s.refs@.len() as int] == x as usize);
        }
        if rs.contains(x as usize) {
            let w = choose|w: int| 0 <= w < rs.len() && rs[w] == x as usize;
            if w < s.refs@.len() {
                assert(s.refs@[w] == x as usize);
            }
        }
    }
    assert(m@ =~= init_marks(n as nat, roots(*s)));
    m
}

proof fn lemma_push_contains(v: Seq<usize>, t: usize, x: usize)
    ensures
        v.push(t).contains(x) <==> (v.contains(x) || x == t),
{
    if v.contains(x) {
        let w = choose|w: int| 0 <= w < v.len() && v[w] == x;
        assert(v.push(t)[w] == x);
    }
    if x == t {
        assert(v.push(t)[v.len() as int] == x);
    }
}

proof fn lemma_marks_len(types: Seq<TypeEntry>, rs: Seq<usize>, k: nat)
    ensures
        marks_after(types, rs, k).len() == types.len(),
    decreases k,
{
    if k > 0 {
        lemma_marks_len(types, rs, (k - 1) as nat);
    }
}

fn next_round(types: &Vec<TypeEntry>, m: &Vec<bool>) -> (r: Vec<bool>)
    requires
        m@.len() == types@.len(),
    ensures
        r@ == round(types@, m@),
{
    let n = m.len();
    let mut r: Vec<bool> = Vec::new();
    let mut j: usize = 0;
    while j < n
        invariant
            j <= n,
            n == m@.len(),
            r@ == m@.subrange(0, j as int),
        decreases n - j,
    {
        r.push(m[j]);
        assert(r@ =~= m@.subrange(0, j + 1));
        j = j + 1;
    }
    let mut i: usize = 0;
    while i < n
        invariant
            i <= n,
            n == m@.len(),
            n == types@.len(),
            r@.len() == n,
            forall|x: int|
                0 <= x < n ==> r@[x] == (m@[x] || exists|y: int|
                    0 <= y < i && m@[y] && #[trigger] types@[y].refs@.contains(x as usize)),
        decreases n - i,
    {
        if m[i] {
            let refs = &types[i].refs;
            let mut k: usize = 0;
            while k < refs.len()
                invariant
                    k <= refs@.len(),
                    refs == types@[i as int].refs,
                    i < n,
                    m@[i as int],
                    n == m@.len(),
                    n == types@.len(),
                    r@.len() == n,
                    forall|x: int|
                        0 <= x < n ==> r@[x] == (m@[x] || (exists|y: int|
                            0 <= y < i && m@[y] && #[trigger] types@[y].refs@.contains(x as usize))
                            || refs@.subrange(0, k as int).contains(x as usize)),
                decreases refs@.len() - k,
            {
                let t = refs[k];
                if t < n {
                    r[t] = true;
                }
                assert(refs@.subrange(0, k + 1) =~= refs@.subrange(0, k as int).push(t));
                assert forall|x: int| 0 <= x < n implies #[trigger] refs@.subrange(0, k + 1).contains(x as usize)
                    == (refs@.subrange(0, k as int).contains(x as usize) || x == t) by {
                    lemma_push_contains(refs@.subrange(0, k as int), t, x as usize);
                }
                k = k + 1;
            }
            assert(refs@.subrange(0, refs@.len() as int) =~= refs@);
            assert forall|x: int| 0 <= x < n implies r@[x] == (m@[x] || exists|y: int|
                0 <= y < i + 1 && m@[y] && #[trigger] types@[y].refs@.contains(x as usize)) by {
                if refs@.contains(x as usize) {
                    assert(types@[i as int].refs@.contains(x as usize));
                }
            }
        }
        i = i + 1;
    }
    assert(r@ =~= round(types@, m@));
    r
}

/// The marks of the registry entries that `s` reaches.
fn closure_of(types: &Vec<TypeEntry>, s: &Subsystem) -> (m: Vec<bool>)
    ensures
        m@ == closure_marks(types@, roots(*s)),
{
    let n = types.len();
    let mut m = initial_marks(n, s);
    let mut k: usize = 0;
    proof {
        lemma_marks_len(types@, roots(*s), 0);
    }
    while k < n
        invariant
            k <= n,
            n == types@.len(),
            m@ == marks_after(types@, roots(*s), k as nat),
            m@.len() == n,
        decreases n - k,
    {
        m = next_round(types, &m);
        proof {
            lemma_marks_len(types@, roots(*s), (k + 1) as nat);
        }
        k = k + 1;
    }
    m
}

/// The bytes that `s`'s digest is taken over, within registry `types`.
pub fn scoped_bytes(types: &Vec<TypeEntry>, s: &Subsystem) -> (r: Vec<u8>)
    ensures
        r@ == scoped_encoding(types@, *s),
{
    let m = closure_of(types, s);
    proof {
        lemma_marks_len(types@, roots(*s), types@.len());
    }
    let mut out: Vec<u8> = Vec::new();
    push_subsystem(&mut out, s);
    let ghost start = out@;
    let mut i: usize = 0;
    while i < types.len()
        invariant
            i <= types@.len(),
            m@ == closure_marks(types@, roots(*s)),
            m@.len() == types@.len(),
            out@ == start + enc_types(types@, m@, i as nat),
        decreases types@.len() - i,
    {
        let ghost before = out@;
        if m[i] {
            push_type(&mut out, i, &types[i]);
        }
        assert(out@ =~= start + enc_types(types@, m@, (i + 1) as nat));
        i = i + 1;
    }
    assert(start =~= enc_subsystem(*s));
    out
}

/// The bytes that a whole document's digest is taken over.
pub fn full_bytes(d: &Document) -> (r: Vec<u8>)
    ensures
        r@ == full_encoding(*d),
{
    let mut out: Vec<u8> = Vec::new();
    push_num(&mut out, d.subsystems.len());
    let ghost start = out@;
    let mut i: usize = 0;
    while i < d.subsystems.len()
        invariant
            i <= d.subsystems@.len(),
            out@ == start + subsystems_body(d.types@, d.subsystems@.subrange(0, i as int)),
        decreases d.subsystems@.len() - i,
    {
        let b = scoped_bytes(&d.types, &d.subsystems[i]);
        let mut j: usize = 0;
        let ghost mid = out@;
        while j < b.len()
            invariant
                j <= b@.len(),
                out@ == mid + b@.subrange(0, j as int),
            decreases b@.len() - j,
        {
            out.push(b[j]);
            assert(out@ =~= mid + b@.subrange(0, j + 1));
            j = j + 1;
        }
        let ghost p = d.subsystems@.subrange(0, i + 1);
        assert(p.drop_last() =~= d.subsystems@.subrange(0, i as int));
        assert(b@.subrange(0, b@.len() as int) =~= b@);
        assert(out@ =~= start + subsystems_body(d.types@, p));
        i = i + 1;
    }
    assert(d.subsystems@.subrange(0, d.subsystems@.len() as int) =~= d.subsystems@);
    assert(out@ =~= full_encoding(*d));
    out
}

} // verus!
