//! Names and targets that are accepted are harmless.
use crate::utils::names::{BACKSLASH, COLON, DOT, SLASH};
use crate::utils::names as paths;
use crate::utils::text;
use vstd::prelude::*;
use vstd::utf8::*;

verus! {

/// Whether these are the parts of a path: none is empty, and each but the last one ends with the
/// only slash in it.
spec fn well_parted(ps: Seq<Seq<u8>>) -> bool
    decreases ps.len(),
{
    ps.len() == 0 || {
        &&& ps[0].len() > 0
        &&& forall|i: int| 0 <= i < ps[0].len() - 1 ==> ps[0][i] != SLASH
        &&& ps.len() > 1 ==> ps[0].last() == SLASH
        &&& well_parted(ps.drop_first())
    }
}

/// The parts that add something to a name.
spec fn kept(ps: Seq<Seq<u8>>) -> Seq<Seq<u8>>
    decreases ps.len(),
{
    if ps.len() == 0 {
        seq![]
    } else if paths::idle_part(ps[0]) {
        kept(ps.drop_first())
    } else {
        seq![ps[0]] + kept(ps.drop_first())
    }
}

/// The parts of a path are well parted.
proof fn lemma_parts_well_parted(s: Seq<u8>)
    ensures
        well_parted(paths::parts(s)),
    decreases s.len(),
{
    if s.len() > 0 {
        let n = paths::part_len(s);
        paths::lemma_slash_at(s);
        lemma_parts_well_parted(s.skip(n));
        let ps = paths::parts(s);
        assert(ps.drop_first() =~= paths::parts(s.skip(n)));
        assert(ps[0] == s.take(n));
        if ps.len() > 1 {
            assert(paths::parts(s.skip(n)).len() > 0);
        }
    }
}

/// Dropping the parts that add nothing leaves parts of the same name, none of which is dropped
/// again.
proof fn lemma_kept(ps: Seq<Seq<u8>>)
    requires
        well_parted(ps),
    ensures
        well_parted(kept(ps)),
        kept(ps).len() <= ps.len(),
        paths::joined(kept(ps)) == paths::joined(ps),
        paths::no_forbidden(ps) ==> paths::no_forbidden(kept(ps)),
        forall|i: int| 0 <= i < kept(ps).len() ==> !paths::idle_part(#[trigger] kept(ps)[i]),
    decreases ps.len(),
{
    if ps.len() > 0 {
        lemma_kept(ps.drop_first());
        if !paths::idle_part(ps[0]) {
            assert(kept(ps).drop_first() =~= kept(ps.drop_first()));
            assert forall|i: int| 0 <= i < kept(ps).len() implies !paths::idle_part(
                #[trigger] kept(ps)[i],
            ) by {
                if i > 0 {
                    assert(kept(ps)[i] == kept(ps.drop_first())[i - 1]);
                }
            }
        }
    }
}

/// The parts of a path that is made of parts are these parts.
proof fn lemma_parts_of_joined(ps: Seq<Seq<u8>>)
    requires
        well_parted(ps),
        forall|i: int| 0 <= i < ps.len() ==> !paths::idle_part(#[trigger] ps[i]),
    ensures
        paths::parts(paths::joined(ps)) == ps,
    decreases ps.len(),
{
    if ps.len() == 0 {
        assert(paths::parts(paths::joined(ps)) =~= ps);
    } else {
        let rest = ps.drop_first();
        assert forall|i: int| 0 <= i < rest.len() implies !paths::idle_part(
            #[trigger] rest[i],
        ) by {
            assert(rest[i] == ps[i + 1]);
        }
        lemma_parts_of_joined(rest);
        let s = paths::joined(ps);
        assert(!paths::idle_part(ps[0]));
        assert(s == ps[0] + paths::joined(rest));
        let n = ps[0].len() as int;
        if ps[0].last() == SLASH {
            paths::lemma_slash_at_unique(s, n - 1);
        } else {
            assert(rest.len() == 0);
            assert(s =~= ps[0]);
            paths::lemma_slash_at_unique(s, n);
        }
        assert(paths::part_len(s) == n);
        assert(s.take(n) =~= ps[0]);
        assert(s.skip(n) =~= paths::joined(rest));
        assert(paths::parts(s) =~= ps);
    }
}

/// The canonical form of a name holds no byte that the name does not hold.
proof fn lemma_joined_bytes(s: Seq<u8>, b: u8)
    requires
        paths::joined(paths::parts(s)).contains(b),
    ensures
        s.contains(b),
    decreases s.len(),
{
    if s.len() > 0 {
        let n = paths::part_len(s);
        paths::lemma_slash_at(s);
        let rest = s.skip(n);
        assert(paths::parts(s).drop_first() =~= paths::parts(rest));
        let t = paths::joined(paths::parts(s));
        let i = choose|i: int| 0 <= i < t.len() && t[i] == b;
        if paths::idle_part(s.take(n)) {
            lemma_joined_bytes(rest, b);
        } else if i < n {
            assert(s[i] == b);
        } else {
            assert(paths::joined(paths::parts(rest))[i - n] == b);
            lemma_joined_bytes(rest, b);
        }
        if !s.contains(b) {
            let j = choose|j: int| 0 <= j < rest.len() && rest[j] == b;
            assert(s[j + n] == b);
        }
    }
}

/// The canonical form of a name that is UTF-8 is UTF-8.
pub proof fn lemma_joined_utf8(s: Seq<u8>)
    requires
        valid_utf8(s),
    ensures
        valid_utf8(paths::joined(paths::parts(s))),
    decreases s.len(),
{
    if s.len() > 0 {
        let n = paths::part_len(s);
        paths::lemma_slash_at(s);
        if paths::slash_at(s) < s.len() {
            text::lemma_boundary_after_ascii(s, n - 1);
        } else {
            is_char_boundary_start_end_of_seq(s);
        }
        valid_utf8_split(s, n);
        assert(s.subrange(0, n) =~= s.take(n));
        assert(s.subrange(n, s.len() as int) =~= s.skip(n));
        lemma_joined_utf8(s.skip(n));
        assert(paths::parts(s).drop_first() =~= paths::parts(s.skip(n)));
        if !paths::idle_part(s.take(n)) {
            valid_utf8_concat(s.take(n), paths::joined(paths::parts(s.skip(n))));
        }
    }
}

/// A name in canonical form is accepted as it is: validating a name twice is the same as
/// validating it once.
pub proof fn lemma_valid_name_idempotent(name: Seq<u8>, windows: bool)
    requires
        paths::valid_name(name, windows) is Some,
    ensures
        paths::valid_name(paths::valid_name(name, windows)->0, windows) == paths::valid_name(
            name,
            windows,
        ),
{
    let ps = paths::parts(name);
    let t = paths::joined(ps);
    lemma_parts_well_parted(name);
    lemma_kept(ps);
    let ks = kept(ps);
    lemma_parts_of_joined(ks);
    assert(paths::parts(t) == ks);
    if t[0] == SLASH {
        assert(ks.len() > 0);
        assert(t == ks[0] + paths::joined(ks.drop_first()));
        assert(ks[0][0] == SLASH);
        assert(ks[0] =~= seq![SLASH]);
        assert(!paths::idle_part(ks[0]));
    }
    if t.contains(BACKSLASH) {
        lemma_joined_bytes(name, BACKSLASH);
    }
    if t.contains(0u8) {
        lemma_joined_bytes(name, 0u8);
    }
    if t.contains(COLON) {
        lemma_joined_bytes(name, COLON);
    }
}

/// An accepted name is relative: it is not empty, does not start with a slash, and holds neither a
/// backslash nor a NUL byte nor, on Windows, a colon. None of its parts is empty, `.` or `..`, so
/// that following it never leaves the directory where it starts.
pub proof fn lemma_valid_name_harmless(name: Seq<u8>, windows: bool)
    requires
        paths::valid_name(name, windows) is Some,
    ensures
        ({
            let s = paths::valid_name(name, windows)->0;
            &&& s.len() > 0
            &&& s[0] != SLASH
            &&& !s.contains(BACKSLASH)
            &&& !s.contains(0u8)
            &&& windows ==> !s.contains(COLON)
            &&& forall|i: int|
                0 <= i < paths::parts(s).len() ==> {
                    let p = #[trigger] paths::parts(s)[i];
                    &&& p.len() > 0
                    &&& p != seq![SLASH]
                    &&& p != seq![DOT]
                    &&& p != seq![DOT, SLASH]
                    &&& p != seq![DOT, DOT]
                    &&& p != seq![DOT, DOT, SLASH]
                }
        }),
{
    lemma_valid_name_idempotent(name, windows);
    let s = paths::valid_name(name, windows)->0;
    lemma_parts_well_parted(name);
    lemma_kept(paths::parts(name));
    lemma_parts_of_joined(kept(paths::parts(name)));
    let ps = paths::parts(s);
    lemma_parts_well_parted(s);
    assert forall|i: int| 0 <= i < ps.len() implies (#[trigger] ps[i]).len() > 0
        && !paths::forbidden_part(ps[i]) by {
        lemma_each_part(ps, i);
    }
}

/// Where no part is forbidden, each part is not.
proof fn lemma_each_part(ps: Seq<Seq<u8>>, i: int)
    requires
        well_parted(ps),
        paths::no_forbidden(ps),
        0 <= i < ps.len(),
    ensures
        ps[i].len() > 0,
        !paths::forbidden_part(ps[i]),
    decreases ps.len(),
{
    if i > 0 {
        lemma_each_part(ps.drop_first(), i - 1);
    }
}

/// How many levels below the root a path ends that starts `level` levels below it.
pub open spec fn level_after(cs: Seq<Seq<u8>>, level: int) -> int
    decreases cs.len(),
{
    if cs.len() == 0 {
        level
    } else if paths::stays(cs.last()) {
        level_after(cs.drop_last(), level)
    } else if paths::goes_up(cs.last()) {
        level_after(cs.drop_last(), level) - 1
    } else {
        level_after(cs.drop_last(), level) + 1
    }
}

/// Following a target that is accepted for a symlink never goes above the root of the archive, not
/// even on the way.
pub proof fn lemma_symlink_stays_inside(name: Seq<u8>, target: Seq<u8>, windows: bool, n: int)
    requires
        paths::valid_symlink(name, target, windows),
        0 <= n <= paths::components(target).len(),
    ensures
        level_after(paths::components(target).take(n), paths::slashes(name) as int) >= 0,
{
    lemma_follow(paths::components(target), Some(paths::slashes(name)), 0, n);
    assert(paths::components(target).take(n).len() == n);
}

/// Where the components can be followed with this depth, none of them leads above the root.
proof fn lemma_follow(cs: Seq<Seq<u8>>, depth: Option<nat>, down: nat, n: int)
    requires
        paths::can_follow(cs, depth),
        0 <= n <= cs.len(),
    ensures
        level_after(
            cs.take(n),
            match depth {
                Some(d) => d as int,
                None => down as int,
            },
        ) >= 0,
    decreases cs.len(),
{
    let level = match depth {
        Some(d) => d as int,
        None => down as int,
    };
    if n > 0 {
        let rest = cs.drop_first();
        lemma_level_first(cs.take(n), level);
        assert(cs.take(n).drop_first() =~= rest.take(n - 1));
        if paths::stays(cs[0]) {
            lemma_follow(rest, depth, down, n - 1);
        } else if paths::goes_up(cs[0]) {
            match depth {
                Some(d) => {
                    lemma_follow(rest, Some((d - 1) as nat), down, n - 1);
                },
                None => {},
            }
        } else {
            lemma_follow(rest, None, (level + 1) as nat, n - 1);
        }
    }
}

/// The first component is followed before the others.
proof fn lemma_level_first(cs: Seq<Seq<u8>>, level: int)
    requires
        cs.len() > 0,
    ensures
        level_after(cs, level) == level_after(
            cs.drop_first(),
            if paths::stays(cs[0]) {
                level
            } else if paths::goes_up(cs[0]) {
                level - 1
            } else {
                level + 1
            },
        ),
    decreases cs.len(),
{
    if cs.len() == 1 {
        assert(cs.drop_last() =~= Seq::<Seq<u8>>::empty());
        assert(cs.drop_first() =~= Seq::<Seq<u8>>::empty());
        reveal_with_fuel(level_after, 2);
    } else {
        lemma_level_first(cs.drop_last(), level);
        assert(cs.drop_last().drop_first() =~= cs.drop_first().drop_last());
        assert(cs.drop_first().last() == cs.last());
    }
}

/// Once an accepted target has gone down, it does not go up again.
pub proof fn lemma_symlink_never_returns(
    name: Seq<u8>,
    target: Seq<u8>,
    windows: bool,
    i: int,
    j: int,
)
    requires
        paths::valid_symlink(name, target, windows),
        0 <= i < j < paths::components(target).len(),
        !paths::stays(paths::components(target)[i]),
        !paths::goes_up(paths::components(target)[i]),
    ensures
        !paths::goes_up(paths::components(target)[j]),
{
    lemma_no_return(paths::components(target), Some(paths::slashes(name)), i, j);
}

/// Where the components can be followed, none goes up behind one that goes down.
proof fn lemma_no_return(cs: Seq<Seq<u8>>, depth: Option<nat>, i: int, j: int)
    requires
        paths::can_follow(cs, depth),
        i < j < cs.len(),
        0 <= j,
        i < 0 ==> depth is None,
        i >= 0 ==> !paths::stays(cs[i]) && !paths::goes_up(cs[i]),
    ensures
        !paths::goes_up(cs[j]),
    decreases cs.len(),
{
    let rest = cs.drop_first();
    assert(seq![DOT].len() != seq![DOT, DOT].len());
    if j > 0 {
        assert(rest[j - 1] == cs[j]);
        if i > 0 {
            assert(rest[i - 1] == cs[i]);
        }
        if paths::stays(cs[0]) {
            lemma_no_return(rest, depth, i - 1, j - 1);
        } else if paths::goes_up(cs[0]) {
            match depth {
                Some(d) => {
                    lemma_no_return(rest, Some((d - 1) as nat), i - 1, j - 1);
                },
                None => {},
            }
        } else {
            lemma_no_return(rest, None, i - 1, j - 1);
        }
    }
}

} // verus!
