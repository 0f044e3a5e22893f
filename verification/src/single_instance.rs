//! One window, many files.
//!
//! A context-menu verb fires once per selected file. The first launch becomes
//! the primary and listens on a loopback socket; later launches hand it their
//! paths and exit, so that a multi-select makes one archive. What travels over
//! the socket is text: each path followed by a line feed. The socket itself is
//! the caller's business; here is what is sent and how it reads back.
use crate::text::{chars_of, string_of, trim, trim_chars};
use vstd::prelude::*;

verus! {

/// Paths as text.
pub open spec fn path_texts(v: Seq<String>) -> Seq<Seq<char>> {
    v.map_values(|s: String| s@)
}

/// Each path followed by a line feed.
pub open spec fn payload_spec(ps: Seq<Seq<char>>) -> Seq<char>
    decreases ps.len(),
{
    if ps.len() == 0 {
        Seq::empty()
    } else {
        payload_spec(ps.drop_last()) + ps.last() + seq!['\n']
    }
}

/// The pieces of `s` between line feeds; the last one runs to the end and may
/// be empty.
pub open spec fn pieces(s: Seq<char>) -> Seq<Seq<char>>
    decreases s.len(),
{
    if s.len() == 0 {
        seq![Seq::empty()]
    } else if s.last() == '\n' {
        pieces(s.drop_last()).push(Seq::empty())
    } else {
        let p = pieces(s.drop_last());
        p.update(p.len() - 1, p.last().push(s.last()))
    }
}

/// The pieces trimmed, without those that trim to nothing.
pub open spec fn kept(ps: Seq<Seq<char>>) -> Seq<Seq<char>>
    decreases ps.len(),
{
    if ps.len() == 0 {
        Seq::empty()
    } else if trim(ps.last()).len() > 0 {
        kept(ps.drop_last()).push(trim(ps.last()))
    } else {
        kept(ps.drop_last())
    }
}

/// The paths a received text stands for: its lines, trimmed, blank ones left out.
pub open spec fn parsed(s: Seq<char>) -> Seq<Seq<char>> {
    kept(pieces(s))
}

proof fn lemma_pieces_nonempty(s: Seq<char>)
    ensures
        pieces(s).len() >= 1,
    decreases s.len(),
{
    if s.len() > 0 {
        lemma_pieces_nonempty(s.drop_last());
    }
}

/// The text a secondary launch sends: every path, each followed by a line feed.
pub fn payload(paths: &[String]) -> (r: String)
    ensures
        r@ == payload_spec(path_texts(paths@)),
{
    let ghost ps = path_texts(paths@);
    let mut out: Vec<char> = Vec::new();
    let mut i: usize = 0;
    while i < paths.len()
        invariant
            i <= paths@.len(),
            ps == path_texts(paths@),
            out@ == payload_spec(ps.take(i as int)),
        decreases paths@.len() - i,
    {
        proof {
            assert(ps.take(i + 1).drop_last() =~= ps.take(i as int));
        }
        let mut c = chars_of(paths[i].as_str());
        out.append(&mut c);
        out.push('\n');
        i += 1;
    }
    proof {
        assert(ps.take(paths@.len() as int) =~= ps);
    }
    string_of(out.as_slice())
}

/// Add the finished piece `cur` to `out` when it trims to something.
fn keep_piece(out: &mut Vec<String>, cur: &Vec<char>)
    ensures
        path_texts(final(out)@) == if trim(cur@).len() > 0 {
            path_texts(old(out)@).push(trim(cur@))
        } else {
            path_texts(old(out)@)
        },
{
    let t = trim_chars(cur.as_slice());
    if t.len() > 0 {
        let ghost before = path_texts(out@);
        out.push(string_of(t.as_slice()));
        proof {
            assert(path_texts(out@) =~= before.push(trim(cur@)));
        }
    }
}

/// The paths in the text a primary received: one per line, trimmed, blank
/// lines left out.
pub fn parse_payload(buf: &str) -> (r: Vec<String>)
    ensures
        path_texts(r@) == parsed(buf@),
{
    let s = chars_of(buf);
    let mut out: Vec<String> = Vec::new();
    let mut cur: Vec<char> = Vec::new();
    let mut i: usize = 0;
    while i < s.len()
        invariant
            i <= s@.len(),
            s@ == buf@,
            pieces(s@.take(i as int)).last() == cur@,
            path_texts(out@) == kept(pieces(s@.take(i as int)).drop_last()),
        decreases s@.len() - i,
    {
        let ghost pre = s@.take(i as int);
        proof {
            assert(s@.take(i + 1).drop_last() =~= pre);
            lemma_pieces_nonempty(pre);
        }
        if s[i] == '\n' {
            keep_piece(&mut out, &cur);
            cur = Vec::new();
            proof {
                let p = pieces(pre);
                assert(pieces(s@.take(i + 1)) == p.push(Seq::<char>::empty()));
                assert(p.push(Seq::<char>::empty()).drop_last() =~= p);
                assert(p =~= p.drop_last().push(p.last()));
                assert(cur@ =~= Seq::<char>::empty());
            }
        } else {
            cur.push(s[i]);
            proof {
                let p = pieces(pre);
                let q = p.update(p.len() - 1, p.last().push(s@[i as int]));
                assert(pieces(s@.take(i + 1)) == q);
                assert(q.drop_last() =~= p.drop_last());
            }
        }
        i += 1;
    }
    proof {
        assert(s@.take(s@.len() as int) =~= s@);
        let p = pieces(s@);
        lemma_pieces_nonempty(s@);
        assert(p =~= p.drop_last().push(p.last()));
    }
    keep_piece(&mut out, &cur);
    out
}

/// A path that travels unchanged: not empty, without surrounding whitespace and
/// without a line feed.
pub open spec fn travels(p: Seq<char>) -> bool {
    p.len() > 0 && trim(p) == p && !p.contains('\n')
}

proof fn lemma_pieces_append_line(pre: Seq<char>, x: Seq<char>)
    requires
        !x.contains('\n'),
    ensures
        pieces(pre + x) == pieces(pre).drop_last().push(pieces(pre).last() + x),
    decreases x.len(),
{
    lemma_pieces_nonempty(pre);
    if x.len() == 0 {
        assert(pre + x =~= pre);
        let p = pieces(pre);
        assert(p.last() + x =~= p.last());
        assert(p =~= p.drop_last().push(p.last()));
    } else {
        let y = x.drop_last();
        assert(!y.contains('\n')) by {
            if y.contains('\n') {
                let k = choose|k: int| 0 <= k < y.len() && y[k] == '\n';
                assert(x[k] == '\n');
            }
        }
        assert(x.last() != '\n') by {
            assert(x[x.len() - 1] == x.last());
        }
        lemma_pieces_append_line(pre, y);
        assert((pre + x).drop_last() =~= pre + y);
        assert((pre + x).last() == x.last());
        let p = pieces(pre);
        let q = pieces(pre + y);
        assert(q == p.drop_last().push(p.last() + y));
        assert(q.last() == p.last() + y);
        assert(q.last().push(x.last()) =~= p.last() + x);
        assert(q.update(q.len() - 1, q.last().push(x.last())) =~= p.drop_last().push(p.last() + x));
    }
}

proof fn lemma_pieces_of_payload(ps: Seq<Seq<char>>)
    requires
        forall|k: int| 0 <= k < ps.len() ==> !(#[trigger] ps[k]).contains('\n'),
    ensures
        pieces(payload_spec(ps)) == ps.push(Seq::empty()),
    decreases ps.len(),
{
    if ps.len() == 0 {
        assert(pieces(Seq::<char>::empty()) =~= seq![Seq::<char>::empty()]);
        assert(ps.push(Seq::<char>::empty()) =~= seq![Seq::<char>::empty()]);
    } else {
        let init = ps.drop_last();
        assert forall|k: int| 0 <= k < init.len() implies !(#[trigger] init[k]).contains('\n') by {
            assert(init[k] == ps[k]);
        }
        lemma_pieces_of_payload(init);
        let pre = payload_spec(init);
        let x = ps.last();
        assert(!x.contains('\n')) by {
            assert(ps[ps.len() - 1] == x);
        }
        lemma_pieces_append_line(pre, x);
        let whole = pre + x + seq!['\n'];
        assert(payload_spec(ps) == whole);
        assert(whole.drop_last() =~= pre + x);
        assert(whole.last() == '\n');
        let p = pieces(pre);
        assert(p == init.push(Seq::<char>::empty()));
        assert(p.drop_last() =~= init);
        assert(p.last() + x =~= x);
        assert(init.push(x) =~= ps);
    }
}

proof fn lemma_kept_travelling(ps: Seq<Seq<char>>)
    requires
        forall|k: int| 0 <= k < ps.len() ==> travels(#[trigger] ps[k]),
    ensures
        kept(ps) == ps,
    decreases ps.len(),
{
    if ps.len() > 0 {
        let init = ps.drop_last();
        assert forall|k: int| 0 <= k < init.len() implies travels(#[trigger] init[k]) by {
            assert(init[k] == ps[k]);
        }
        lemma_kept_travelling(init);
        assert(travels(ps[ps.len() - 1]));
        assert(init.push(ps.last()) =~= ps);
    }
}

/// What the primary reads back is what the secondaries sent: the paths, in
/// order, for paths that are not empty, carry no surrounding whitespace and
/// hold no line feed.
pub proof fn lemma_handoff_roundtrip(ps: Seq<Seq<char>>)
    requires
        forall|k: int| 0 <= k < ps.len() ==> travels(#[trigger] ps[k]),
    ensures
        parsed(payload_spec(ps)) == ps,
{
    assert forall|k: int| 0 <= k < ps.len() implies !(#[trigger] ps[k]).contains('\n') by {
        assert(travels(ps[k]));
    }
    lemma_pieces_of_payload(ps);
    assert(trim(Seq::<char>::empty()).len() == 0);
    assert(ps.push(Seq::<char>::empty()).drop_last() =~= ps);
    lemma_kept_travelling(ps);
}

} // verus!
