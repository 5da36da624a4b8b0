//! The name of a secondary source, read from the path of its store: the
//! directory two levels above the store file.

use vstd::prelude::*;
use vstd::string::StrSliceExecFns;

verus! {

/// The pieces of `p` between `/` separators, empty ones included.
pub open spec fn raw_parts(p: Seq<char>) -> Seq<Seq<char>>
    decreases p.len(),
{
    if p.len() == 0 {
        seq![Seq::empty()]
    } else {
        let r = raw_parts(p.drop_last());
        if p.last() == '/' {
            r.push(Seq::empty())
        } else {
            r.update(r.len() - 1, r.last().push(p.last()))
        }
    }
}

/// Whether a piece names a component: empty pieces and `.` do not.
pub open spec fn is_component(s: Seq<char>) -> bool {
    s.len() > 0 && s != seq!['.']
}

pub open spec fn keep_components(s: Seq<Seq<char>>) -> Seq<Seq<char>>
    decreases s.len(),
{
    if s.len() == 0 {
        s
    } else if is_component(s.last()) {
        keep_components(s.drop_last()).push(s.last())
    } else {
        keep_components(s.drop_last())
    }
}

/// The components of a `/`-separated path, with empty and `.` pieces left out.
pub open spec fn components(p: Seq<char>) -> Seq<Seq<char>> {
    keep_components(raw_parts(p))
}

/// The name of the directory that holds the directory of the file at `p`, or
/// `unknown` when there is none or it is `..`.
pub open spec fn node_name_of(p: Seq<char>) -> Seq<char> {
    let c = components(p);
    if c.len() >= 3 && c[c.len() - 3] != seq!['.', '.'] {
        c[c.len() - 3]
    } else {
        "unknown"@
    }
}

fn piece_is_component(s: &str) -> (r: bool)
    ensures
        r == is_component(s@),
{
    let n = s.unicode_len();
    if n == 0 {
        false
    } else if n == 1 && s.get_char(0) == '.' {
        assert(s@ =~= seq!['.']);
        false
    } else {
        assert(n == 1 ==> s@[0] != '.');
        assert(s@ != seq!['.'] ) by {
            if n == 1 {
                assert(s@[0] != seq!['.'][0]);
            } else {
                assert(s@.len() != seq!['.'].len());
            }
        }
        true
    }
}

fn is_parent_dir(s: &String) -> (r: bool)
    ensures
        r == (s@ == seq!['.', '.']),
{
    let t = s.as_str();
    if t.unicode_len() == 2 && t.get_char(0) == '.' && t.get_char(1) == '.' {
        assert(t@ =~= seq!['.', '.']);
        true
    } else {
        assert(t@ != seq!['.', '.']) by {
            if t@.len() == 2 {
                assert(t@[0] != '.' || t@[1] != '.');
            }
        }
        false
    }
}

/// The components of the path `p`, in order.
pub fn path_components(p: &str) -> (r: Vec<String>)
    ensures
        r@.map_values(|s: String| s@) == components(p@),
{
    let n = p.unicode_len();
    let mut out: Vec<String> = Vec::new();
    let ghost mut done: Seq<Seq<char>> = Seq::empty();
    let mut start: usize = 0;
    let mut i: usize = 0;
    assert(p@.subrange(0, 0) =~= Seq::<char>::empty());
    while i < n
        invariant
            n == p@.len(),
            start <= i <= n,
            raw_parts(p@.subrange(0, i as int)) == done.push(p@.subrange(start as int, i as int)),
            out@.map_values(|s: String| s@) == keep_components(done),
        decreases n - i,
    {
        let ch = p.get_char(i);
        assert(p@.subrange(0, i + 1).drop_last() =~= p@.subrange(0, i as int));
        if ch == '/' {
            let piece = p.substring_char(start, i);
            let ghost before = out@;
            if piece_is_component(piece) {
                out.push(piece.to_owned());
                assert(out@.map_values(|s: String| s@) =~= before.map_values(|s: String| s@).push(piece@));
            }
            proof {
                let d2 = done.push(piece@);
                assert(d2.drop_last() =~= done);
                done = d2;
            }
            start = i + 1;
            assert(p@.subrange(start as int, i + 1) =~= Seq::<char>::empty());
        } else {
            assert(p@.subrange(start as int, i + 1) =~= p@.subrange(start as int, i as int).push(ch));
        }
        i = i + 1;
    }
    let piece = p.substring_char(start, n);
    let ghost before = out@;
    if piece_is_component(piece) {
        out.push(piece.to_owned());
        assert(out@.map_values(|s: String| s@) =~= before.map_values(|s: String| s@).push(piece@));
    }
    proof {
        let d2 = done.push(piece@);
        assert(d2.drop_last() =~= done);
        assert(p@.subrange(0, n as int) =~= p@);
    }
    out
}

/// The name of the secondary source whose store is the file at `db_path`:
/// the directory two levels above it, or `unknown`.
pub fn extract_node_name(db_path: &str) -> (r: String)
    ensures
        r@ == node_name_of(db_path@),
{
    let parts = path_components(db_path);
    let ghost c = components(db_path@);
    let len = parts.len();
    if len >= 3 {
        assert(parts@[len - 3]@ == c[len - 3]);
        if !is_parent_dir(&parts[len - 3]) {
            return parts[len - 3].clone();
        }
    }
    String::from_str("unknown")
}

} // verus!
