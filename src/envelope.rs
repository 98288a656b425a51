use vstd::prelude::*;
use crate::model::{
    Document, DocumentV14, Envelope, Payload, Subsystem, SubsystemV14, upgraded,
    upgraded_subsystem,
};

verus! {

/// Why a node's document could not be obtained. Every kind names the node.
pub enum FetchError {
    /// The node could not be reached.
    Transport { node: String },
    /// The bytes the node sent are not a well-formed envelope.
    Decode { node: String },
    /// The envelope's reserved marker is not the expected one.
    InvalidEnvelope { node: String, observed: u32, expected: u32 },
    /// The envelope carries a version outside the recognised set.
    UnsupportedVersion { node: String, observed: u32 },
}

/// The marker that opens every well-formed envelope ("meta", little-endian).
pub open spec fn expected_marker() -> u32 {
    0x6174656d
}

/// Relies on frame_metadata::META_RESERVED, the reserved envelope marker.
#[verifier::external_body]
fn reserved_marker() -> (r: u32)
    ensures
        r == expected_marker(),
{
    frame_metadata::META_RESERVED
}

/// Checks the envelope marker of `node`'s document.
pub fn validate_marker(node: &String, marker: u32) -> (r: Result<(), FetchError>)
    ensures
        r is Ok <==> marker == expected_marker(),
        r is Err ==> r == Err::<(), FetchError>(
            FetchError::InvalidEnvelope { node: *node, observed: marker, expected: expected_marker() },
        ),
{
    let expected = reserved_marker();
    if marker == expected {
        Ok(())
    } else {
        Err(FetchError::InvalidEnvelope { node: node.clone(), observed: marker, expected })
    }
}

/// Rewrites one subsystem of the older version into the canonical shape.
pub fn upgrade_subsystem(o: SubsystemV14) -> (s: Subsystem)
    ensures
        upgraded_subsystem(o, s),
{
    Subsystem { name: o.name, shape: o.shape, refs: o.refs, error: o.error, docs: Vec::new() }
}

/// Rewrites a document of the older version into the canonical shape,
/// keeping every subsystem in place and the registry as it is.
pub fn upgrade_document(o: DocumentV14) -> (d: Document)
    ensures
        upgraded(o, d),
{
    let ghost subs0 = o.subsystems@;
    let mut rest = o.subsystems;
    let mut out: Vec<Subsystem> = Vec::new();
    while rest.len() > 0
        invariant
            rest@ == subs0.subrange(0, rest@.len() as int),
            out@.len() == subs0.len() - rest@.len(),
            forall|i: int|
                0 <= i < out@.len() ==> #[trigger] upgraded_subsystem(
                    subs0[rest@.len() + i],
                    out@[i],
                ),
        decreases rest@.len(),
    {
        let ghost before = rest@;
        let s = rest.pop().unwrap();
        assert(s == subs0[rest@.len() as int]) by {
            assert(before[before.len() - 1] == subs0[before.len() - 1]);
        }
        assert(rest@ =~= subs0.subrange(0, rest@.len() as int));
        let u = upgrade_subsystem(s);
        let ghost prev = out@;
        out.insert(0, u);
        assert forall|i: int| 0 <= i < out@.len() implies #[trigger] upgraded_subsystem(
            subs0[rest@.len() + i],
            out@[i],
        ) by {
            if i == 0 {
                assert(out@[0] == u);
            } else {
                assert(out@[i] == prev[i - 1]);
                assert(upgraded_subsystem(subs0[before.len() + (i - 1)], prev[i - 1]));
                assert(before.len() + (i - 1) == rest@.len() + i);
            }
        }
    }
    let d = Document { subsystems: out, types: o.types };
    assert forall|i: int| 0 <= i < subs0.len() implies #[trigger] upgraded_subsystem(
        o.subsystems@[i],
        d.subsystems@[i],
    ) by {
        assert(upgraded_subsystem(subs0[rest@.len() + i], out@[i]));
        assert(rest@.len() + i == i);
    }
    d
}

/// Brings a recognised payload into the canonical shape; the newest version
/// passes through unchanged.
pub fn normalize(node: &String, p: Payload) -> (r: Result<Document, FetchError>)
    ensures
        match p {
            Payload::V14(o) => r matches Ok(d) && upgraded(o, d),
            Payload::V15(d) => r == Ok::<Document, FetchError>(d),
            Payload::Unsupported(v) => r == Err::<Document, FetchError>(
                FetchError::UnsupportedVersion { node: *node, observed: v },
            ),
        },
{
    match p {
        Payload::V14(o) => Ok(upgrade_document(o)),
        Payload::V15(d) => Ok(d),
        Payload::Unsupported(v) => Err(FetchError::UnsupportedVersion { node: node.clone(), observed: v }),
    }
}

/// What accepting `env` from `node` gives: the marker is checked first, then
/// the version.
pub open spec fn envelope_outcome(node: String, env: Envelope, r: Result<Document, FetchError>) -> bool {
    if env.marker != expected_marker() {
        r == Err::<Document, FetchError>(
            FetchError::InvalidEnvelope { node, observed: env.marker, expected: expected_marker() },
        )
    } else {
        match env.payload {
            Payload::V14(o) => r matches Ok(d) && upgraded(o, d),
            Payload::V15(d) => r == Ok::<Document, FetchError>(d),
            Payload::Unsupported(v) => r == Err::<Document, FetchError>(
                FetchError::UnsupportedVersion { node, observed: v },
            ),
        }
    }
}

/// Validates a decoded envelope of `node` and normalises its payload.
pub fn accept_envelope(node: &String, env: Envelope) -> (r: Result<Document, FetchError>)
    ensures
        envelope_outcome(*node, env, r),
{
    match validate_marker(node, env.marker) {
        Err(e) => Err(e),
        Ok(()) => normalize(node, env.payload),
    }
}

/// Why no envelope could be read from a node.
pub enum FetchFailure {
    /// The transport could not reach the node.
    Unreachable,
    /// The bytes did not decode to an envelope.
    Malformed,
}

/// The per-node fetch step after transport and decoder have run: a failure
/// of either is attributed to `node`, an envelope is accepted as
/// `accept_envelope` does.
pub fn accept_fetched(node: &String, fetched: Result<Envelope, FetchFailure>) -> (r: Result<
    Document,
    FetchError,
>)
    ensures
        match fetched {
            Err(FetchFailure::Unreachable) => r == Err::<Document, FetchError>(
                FetchError::Transport { node: *node },
            ),
            Err(FetchFailure::Malformed) => r == Err::<Document, FetchError>(
                FetchError::Decode { node: *node },
            ),
            Ok(env) => envelope_outcome(*node, env, r),
        },
{
    match fetched {
        Err(FetchFailure::Unreachable) => Err(FetchError::Transport { node: node.clone() }),
        Err(FetchFailure::Malformed) => Err(FetchError::Decode { node: node.clone() }),
        Ok(env) => accept_envelope(node, env),
    }
}

} // verus!
