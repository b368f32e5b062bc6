use vstd::prelude::*;

use crate::error::RteError;
use crate::strutil::{split_on, split_str};

verus! {

/// A segment that is dropped during sanitization rather than kept: an empty
/// segment (from a doubled, leading or trailing slash) or a current-directory
/// marker.
pub open spec fn seg_is_marker(seg: Seq<char>) -> bool {
    seg.len() == 0 || seg == seq!['.']
}

/// A parent-directory segment, which makes a path unsafe to write.
pub open spec fn seg_is_parent(seg: Seq<char>) -> bool {
    seg == seq!['.', '.']
}

/// The raw segments of a path, split at every slash.
pub open spec fn raw_segments(s: Seq<char>) -> Seq<Seq<char>> {
    split_on(s, '/')
}

/// Whether any raw segment of the path is a parent-directory segment.
pub open spec fn has_parent_segment(s: Seq<char>) -> bool {
    exists|i: int| 0 <= i < raw_segments(s).len() && seg_is_parent(raw_segments(s)[i])
}

/// The segments that remain once marker segments are dropped.
pub open spec fn keep_segments(ss: Seq<Seq<char>>) -> Seq<Seq<char>>
    decreases ss.len(),
{
    if ss.len() == 0 {
        Seq::<Seq<char>>::empty()
    } else {
        let rest = keep_segments(ss.drop_last());
        if seg_is_marker(ss.last()) {
            rest
        } else {
            rest.push(ss.last())
        }
    }
}

/// The path's meaningful components: raw segments minus markers. A
/// parent-directory segment, if present, is kept here; sanitization rejects
/// the path instead of ever using it.
pub open spec fn clean_segments(s: Seq<char>) -> Seq<Seq<char>> {
    keep_segments(raw_segments(s))
}

/// Every kept segment is one of the original segments, and no marker.
pub proof fn lemma_keep_segments_elements(ss: Seq<Seq<char>>)
    ensures
        forall|i: int|
            0 <= i < keep_segments(ss).len() ==> !seg_is_marker(#[trigger] keep_segments(ss)[i])
                && ss.contains(keep_segments(ss)[i]),
    decreases ss.len(),
{
    if ss.len() > 0 {
        lemma_keep_segments_elements(ss.drop_last());
        let rest = keep_segments(ss.drop_last());
        assert forall|i: int| 0 <= i < keep_segments(ss).len() implies !seg_is_marker(
            #[trigger] keep_segments(ss)[i],
        ) && ss.contains(keep_segments(ss)[i]) by {
            if i < rest.len() {
                assert(keep_segments(ss)[i] == rest[i]);
                assert(ss.drop_last().contains(rest[i]));
                let j = choose|j: int| 0 <= j < ss.drop_last().len() && ss.drop_last()[j] == rest[i];
                assert(ss[j] == rest[i]);
            } else {
                assert(keep_segments(ss)[i] == ss.last());
                assert(ss[ss.len() - 1] == ss.last());
            }
        }
    }
}

/// A sanitized path holds no parent-directory segment and no marker.
pub proof fn lemma_sanitized_no_parent(s: Seq<char>)
    requires
        !has_parent_segment(s),
    ensures
        forall|i: int|
            0 <= i < clean_segments(s).len() ==> !seg_is_marker(#[trigger] clean_segments(s)[i])
                && !seg_is_parent(clean_segments(s)[i]),
{
    lemma_keep_segments_elements(raw_segments(s));
    assert forall|i: int| 0 <= i < clean_segments(s).len() implies !seg_is_marker(
        #[trigger] clean_segments(s)[i],
    ) && !seg_is_parent(clean_segments(s)[i]) by {
        assert(raw_segments(s).contains(clean_segments(s)[i]));
        let j = choose|j: int|
            0 <= j < raw_segments(s).len() && raw_segments(s)[j] == clean_segments(s)[i];
        assert(!seg_is_parent(raw_segments(s)[j]));
    }
}

/// Validates a candidate relative path before anything is written for it.
/// Marker segments are dropped, a parent-directory segment fails the whole
/// path with a traversal error, and the remaining segments are returned in
/// order. An empty result means "nothing to write", never an error.
pub fn sanitize_path(path: &str) -> (r: Result<Vec<String>, RteError>)
    ensures
        match r {
            Ok(v) => !has_parent_segment(path@) && v@.map_values(|t: String| t@)
                == clean_segments(path@),
            Err(e) => has_parent_segment(path@) && (e matches RteError::Traversal { path: p }
                && p@ == path@),
        },
{
    let raw = split_str(path, '/');
    let ghost rs = raw@.map_values(|t: String| t@);
    let mut out: Vec<String> = Vec::new();
    let mut i: usize = 0;
    proof {
        assert(rs.take(0) =~= Seq::<Seq<char>>::empty());
        assert(out@.map_values(|t: String| t@) =~= Seq::<Seq<char>>::empty());
    }
    while i < raw.len()
        invariant
            rs == raw@.map_values(|t: String| t@),
            rs == raw_segments(path@),
            0 <= i <= raw@.len(),
            forall|j: int| 0 <= j < i ==> !seg_is_parent(rs[j]),
            out@.map_values(|t: String| t@) == keep_segments(rs.take(i as int)),
        decreases raw@.len() - i,
    {
        let seg = &raw[i];
        let s0 = seg.as_str();
        let n = s0.unicode_len();
        let is_parent = n == 2 && s0.get_char(0) == '.' && s0.get_char(1) == '.';
        if is_parent {
            proof {
                assert(rs[i as int] =~= seq!['.', '.']);
            }
            return Err(RteError::Traversal { path: path.to_owned() });
        }
        let is_marker = n == 0 || (n == 1 && s0.get_char(0) == '.');
        proof {
            assert(rs[i as int] == seg@);
            assert(s0@ == seg@);
            if n == 1 && seg@[0] == '.' {
                assert(seg@ =~= seq!['.']);
            }
            if !is_marker {
                assert(seg@.len() > 0);
                if seg@ == seq!['.'] {
                    assert(seg@.len() == 1 && seg@[0] == '.');
                }
                assert(!seg_is_marker(seg@));
            }
            if is_parent {
            } else {
                if seg@ == seq!['.', '.'] {
                    assert(seg@.len() == 2 && seg@[0] == '.' && seg@[1] == '.');
                }
                assert(!seg_is_parent(rs[i as int]));
            }
            assert(rs.take(i + 1).drop_last() =~= rs.take(i as int));
            assert(rs.take(i + 1).last() == rs[i as int]);
        }
        if !is_marker {
            let kept = seg.clone();
            proof {
                assert(kept@ == seg@);
                assert(out@.push(kept).map_values(|t: String| t@) =~= out@.map_values(
                    |t: String| t@,
                ).push(kept@));
            }
            out.push(kept);
        }
        i = i + 1;
    }
    proof {
        assert(rs.take(raw@.len() as int) =~= rs);
    }
    Ok(out)
}

/// The path's meaningful components, markers dropped and parent-directory
/// segments kept: what component-counting stages (such as strip-components)
/// see of a path.
pub fn path_components(path: &str) -> (r: Vec<String>)
    ensures
        r@.map_values(|t: String| t@) == clean_segments(path@),
{
    let raw = split_str(path, '/');
    let ghost rs = raw@.map_values(|t: String| t@);
    let mut out: Vec<String> = Vec::new();
    let mut i: usize = 0;
    proof {
        assert(rs.take(0) =~= Seq::<Seq<char>>::empty());
        assert(out@.map_values(|t: String| t@) =~= Seq::<Seq<char>>::empty());
    }
    while i < raw.len()
        invariant
            rs == raw@.map_values(|t: String| t@),
            rs == raw_segments(path@),
            0 <= i <= raw@.len(),
            out@.map_values(|t: String| t@) == keep_segments(rs.take(i as int)),
        decreases raw@.len() - i,
    {
        let seg = &raw[i];
        let s0 = seg.as_str();
        let n = s0.unicode_len();
        let is_marker = n == 0 || (n == 1 && s0.get_char(0) == '.');
        proof {
            assert(rs[i as int] == seg@);
            assert(s0@ == seg@);
            if n == 1 && seg@[0] == '.' {
                assert(seg@ =~= seq!['.']);
            }
            if !is_marker {
                if seg@ == seq!['.'] {
                    assert(seg@.len() == 1 && seg@[0] == '.');
                }
                assert(!seg_is_marker(seg@));
            }
            assert(rs.take(i + 1).drop_last() =~= rs.take(i as int));
            assert(rs.take(i + 1).last() == rs[i as int]);
        }
        if !is_marker {
            let kept = seg.clone();
            proof {
                assert(kept@ == seg@);
                assert(out@.push(kept).map_values(|t: String| t@) =~= out@.map_values(
                    |t: String| t@,
                ).push(kept@));
            }
            out.push(kept);
        }
        i = i + 1;
    }
    proof {
        assert(rs.take(raw@.len() as int) =~= rs);
    }
    out
}

/// The message of a traversal error always names the `..` segment.
pub proof fn lemma_traversal_error_mentions_dotdot(path: String)
    ensures
        ({
            let msg = (RteError::Traversal { path }).spec_message();
            exists|i: int|
                0 <= i && i + 2 <= msg.len() && #[trigger] msg.subrange(i, i + 2) == seq!['.', '.']
        }),
{
    reveal_strlit("invalid path '");
    reveal_strlit("' containing ..");
    let msg = (RteError::Traversal { path }).spec_message();
    let i = msg.len() - 2;
    assert(msg.subrange(i as int, i + 2 as int) =~= seq!['.', '.']);
}

} // verus!
