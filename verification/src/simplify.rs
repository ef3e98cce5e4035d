//! The index-build pass: every traversal record keeps its fields except the
//! traversal-token field, which is rewritten to the placeholder `*`; lines of
//! any other kind are skipped.

use crate::bytes::{split_bytes, split_spec, views_of};
use crate::error::CmdError;
use vstd::prelude::*;

verus! {

/// The fields of `parts` joined by `sep`.
pub open spec fn joined_spec(parts: Seq<Seq<u8>>, sep: u8) -> Seq<u8>
    decreases parts.len(),
{
    if parts.len() == 0 {
        Seq::<u8>::empty()
    } else if parts.len() == 1 {
        parts[0]
    } else {
        joined_spec(parts.drop_last(), sep) + seq![sep] + parts.last()
    }
}

/// What the index-build pass makes of one line: a `P` line has its third
/// field, a `W` line its seventh, replaced by `*`; a line led by anything
/// else is skipped. A traversal line too short to hold that field is
/// rejected.
pub open spec fn simplify_line_spec(line: Seq<u8>) -> Result<Option<Seq<u8>>, CmdError> {
    if line.len() >= 1 && (line[0] == 80 || line[0] == 87) {
        let idx: int = if line[0] == 80 {
            2
        } else {
            6
        };
        let parts = split_spec(line, 9);
        if parts.len() <= idx {
            Err(CmdError::ParseError)
        } else {
            Ok(Some(joined_spec(parts.update(idx, seq![42u8]), 9)))
        }
    } else {
        Ok(None)
    }
}

/// Rewrites one line for the index-build pass: `None` for a line that is
/// dropped, or the line with its traversal-token field replaced by `*`.
pub fn simplify_line(line: &[u8]) -> (r: Result<Option<Vec<u8>>, CmdError>)
    ensures
        r matches Ok(Some(v)) ==> simplify_line_spec(line@) == Ok::<Option<Seq<u8>>, CmdError>(
            Some(v@),
        ),
        r matches Ok(None) ==> simplify_line_spec(line@) == Ok::<Option<Seq<u8>>, CmdError>(None),
        r matches Err(e) ==> simplify_line_spec(line@) == Err::<Option<Seq<u8>>, CmdError>(e),
{
    if line.len() == 0 {
        return Ok(None);
    }
    let b0 = line[0];
    if !(b0 == 80 || b0 == 87) {
        return Ok(None);
    }
    let idx: usize = if b0 == 80 {
        2
    } else {
        6
    };
    let parts = split_bytes(line, 9);
    if parts.len() <= idx {
        return Err(CmdError::ParseError);
    }
    let ghost pv = views_of(parts@);
    let ghost upd = pv.update(idx as int, seq![42u8]);
    let mut out: Vec<u8> = Vec::new();
    let mut k: usize = 0;
    proof {
        assert(upd.len() == pv.len());
    }
    while k < parts.len()
        invariant
            0 <= k <= parts@.len(),
            idx < parts@.len(),
            pv == views_of(parts@),
            upd == pv.update(idx as int, seq![42u8]),
            out@ == joined_spec(upd.take(k as int), 9),
        decreases parts@.len() - k,
    {
        proof {
            assert(upd.take(k as int + 1).drop_last() =~~= upd.take(k as int));
            assert(upd.take(k as int + 1).last() == upd[k as int]);
        }
        if k > 0 {
            out.push(9);
        }
        let ghost base = out@;
        if k == idx {
            out.push(42);
            proof {
                assert(upd[k as int] =~= seq![42u8]);
                assert(out@ =~= base + upd[k as int]);
            }
        } else {
            crate::bytes::append_bytes(&mut out, parts[k].as_slice());
            proof {
                assert(upd[k as int] == pv[k as int]);
            }
        }
        proof {
            if k == 0 {
                assert(upd.take(1) =~~= seq![upd[0]]);
                assert(out@ =~= joined_spec(upd.take(1), 9));
            } else {
                assert(out@ =~= joined_spec(upd.take(k as int), 9) + seq![9u8] + upd[k as int]);
                assert(out@ =~= joined_spec(upd.take(k as int + 1), 9));
            }
        }
        k = k + 1;
    }
    proof {
        assert(upd.take(k as int) =~~= upd);
    }
    Ok(Some(out))
}

} // verus!
