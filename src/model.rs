use vstd::prelude::*;

verus! {

/// One entry of a document's shared type registry: the type's own structure
/// (everything but its references), and the registry indices it refers to.
pub struct TypeEntry {
    pub shape: Vec<u8>,
    pub refs: Vec<usize>,
}

/// A named subsystem of the canonical (latest) document.
pub struct Subsystem {
    pub name: String,
    /// The subsystem's own structure (storage, calls, events, constants).
    pub shape: Vec<u8>,
    /// Registry indices of the types the subsystem uses directly.
    pub refs: Vec<usize>,
    /// Registry index of the subsystem's declared error type.
    pub error: Option<usize>,
    /// Documentation; it carries no structure and takes no part in hashing.
    pub docs: Vec<String>,
}

/// The canonical (latest-version) document: subsystems in order, and the
/// registry that they refer into by index.
pub struct Document {
    pub subsystems: Vec<Subsystem>,
    pub types: Vec<TypeEntry>,
}

/// A subsystem as the older document version describes it (no documentation).
pub struct SubsystemV14 {
    pub name: String,
    pub shape: Vec<u8>,
    pub refs: Vec<usize>,
    pub error: Option<usize>,
}

/// The older document version.
pub struct DocumentV14 {
    pub subsystems: Vec<SubsystemV14>,
    pub types: Vec<TypeEntry>,
}

/// A versioned payload as it comes out of the decoder.
pub enum Payload {
    V14(DocumentV14),
    V15(Document),
    /// Any version tag outside the recognised set.
    Unsupported(u32),
}

/// The decoded top-level envelope: a reserved marker and a versioned payload.
pub struct Envelope {
    pub marker: u32,
    pub payload: Payload,
}

/// The registry indices a subsystem's scope starts from: the types it uses
/// directly, then its error type.
pub open spec fn roots(s: Subsystem) -> Seq<usize> {
    s.refs@ + match s.error {
        Some(e) => seq![e],
        None => Seq::<usize>::empty(),
    }
}

/// Two subsystems describe the same structure (documentation aside).
pub open spec fn same_subsystem(a: Subsystem, b: Subsystem) -> bool {
    &&& a.name@ == b.name@
    &&& a.shape@ == b.shape@
    &&& a.refs@ == b.refs@
    &&& a.error == b.error
}

/// Two canonical documents describe the same structure: the same registry,
/// and pairwise the same subsystems (documentation aside).
pub open spec fn same_structure(a: Document, b: Document) -> bool {
    &&& a.types@ == b.types@
    &&& a.subsystems@.len() == b.subsystems@.len()
    &&& forall|i: int|
        0 <= i < a.subsystems@.len() ==> #[trigger] same_subsystem(
            a.subsystems@[i],
            b.subsystems@[i],
        )
}

/// `d` is the canonical form of the older document `o`: every subsystem kept
/// in place with no documentation, and the registry unchanged.
pub open spec fn upgraded(o: DocumentV14, d: Document) -> bool {
    &&& d.types@ == o.types@
    &&& d.subsystems@.len() == o.subsystems@.len()
    &&& forall|i: int|
        0 <= i < o.subsystems@.len() ==> #[trigger] upgraded_subsystem(
            o.subsystems@[i],
            d.subsystems@[i],
        )
}

pub open spec fn upgraded_subsystem(o: SubsystemV14, s: Subsystem) -> bool {
    &&& s.name == o.name
    &&& s.shape == o.shape
    &&& s.refs == o.refs
    &&& s.error == o.error
    &&& s.docs@.len() == 0
}

} // verus!
