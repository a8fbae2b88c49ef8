//! Names of entries, and targets of symlinks.
use crate::utils::text;
use vstd::prelude::*;
use vstd::string::*;
use vstd::utf8::*;

verus! {

/// `/`
pub const SLASH: u8 = 0x2f;

/// `.`
pub const DOT: u8 = 0x2e;

/// `\`
pub const BACKSLASH: u8 = 0x5c;

/// `:`
pub const COLON: u8 = 0x3a;

/// The number of bytes before the first slash, or all of them.
pub open spec fn slash_at(s: Seq<u8>) -> nat
    decreases s.len(),
{
    if s.len() == 0 || s[0] == SLASH {
        0
    } else {
        1 + slash_at(s.drop_first())
    }
}

/// The length of the first part of a path, its slash included.
pub open spec fn part_len(s: Seq<u8>) -> int {
    if slash_at(s) < s.len() {
        slash_at(s) as int + 1
    } else {
        s.len() as int
    }
}

/// The number of bytes before the first slash lies within the path, and is pinned down by the
/// bytes before it and at it.
pub proof fn lemma_slash_at(s: Seq<u8>)
    ensures
        0 <= slash_at(s) <= s.len(),
        forall|i: int| 0 <= i < slash_at(s) ==> s[i] != SLASH,
        slash_at(s) < s.len() ==> s[slash_at(s) as int] == SLASH,
    decreases s.len(),
{
    if s.len() != 0 && s[0] != SLASH {
        let t = s.drop_first();
        lemma_slash_at(t);
        assert forall|i: int| 0 <= i < slash_at(s) implies s[i] != SLASH by {
            if i > 0 {
                assert(s[i] == t[i - 1]);
            }
        }
    }
}

/// A position with no slash before it, and a slash or the end of the path at it, is where the
/// first slash is.
pub proof fn lemma_slash_at_unique(s: Seq<u8>, n: int)
    requires
        0 <= n <= s.len(),
        forall|i: int| 0 <= i < n ==> s[i] != SLASH,
        n < s.len() ==> s[n] == SLASH,
    ensures
        slash_at(s) == n,
{
    lemma_slash_at(s);
}

/// The parts of a path, each with the slash that ends it.
pub open spec fn parts(s: Seq<u8>) -> Seq<Seq<u8>>
    decreases s.len(),
{
    if s.len() == 0 {
        seq![]
    } else {
        seq![s.take(part_len(s))] + parts(s.skip(part_len(s)))
    }
}

/// A part that is not allowed in a name: `.` or `..` at the end, `../` anywhere.
pub open spec fn forbidden_part(p: Seq<u8>) -> bool {
    p == seq![DOT] || p == seq![DOT, DOT] || p == seq![DOT, DOT, SLASH]
}

/// A part that adds nothing to a name: an empty one, or `./`.
pub open spec fn idle_part(p: Seq<u8>) -> bool {
    p == seq![SLASH] || p == seq![DOT, SLASH]
}

/// Whether none of the parts is forbidden.
pub open spec fn no_forbidden(ps: Seq<Seq<u8>>) -> bool
    decreases ps.len(),
{
    ps.len() == 0 || (!forbidden_part(ps[0]) && no_forbidden(ps.drop_first()))
}

/// The parts one after the other, without those that add nothing.
pub open spec fn joined(ps: Seq<Seq<u8>>) -> Seq<u8>
    decreases ps.len(),
{
    if ps.len() == 0 {
        seq![]
    } else if idle_part(ps[0]) {
        joined(ps.drop_first())
    } else {
        ps[0] + joined(ps.drop_first())
    }
}

/// The canonical form of a name is not longer than the name.
pub proof fn lemma_joined_len(s: Seq<u8>)
    ensures
        joined(parts(s)).len() <= s.len(),
    decreases s.len(),
{
    if s.len() > 0 {
        let n = part_len(s);
        lemma_slash_at(s);
        lemma_joined_len(s.skip(n));
        assert(parts(s).drop_first() =~= parts(s.skip(n)));
    }
}

/// A path that is absolute, or holds a byte that no path in an archive may hold.
pub open spec fn forbidden_path(s: Seq<u8>, windows: bool) -> bool {
    ||| s.len() > 0 && s[0] == SLASH
    ||| s.contains(BACKSLASH)
    ||| s.contains(0u8)
    ||| windows && s.contains(COLON)
}

/// The canonical form of a name, where the name is allowed. On Windows a name cannot hold a colon.
pub open spec fn valid_name(s: Seq<u8>, windows: bool) -> Option<Seq<u8>> {
    if forbidden_path(s, windows) || !no_forbidden(parts(s)) || joined(parts(s)).len() == 0 {
        None
    } else {
        Some(joined(parts(s)))
    }
}

/// A name without its trailing slash: two entries may not have the same.
pub open spec fn stripped(s: Seq<u8>) -> Seq<u8> {
    if ends_with_slash(s) {
        s.drop_last()
    } else {
        s
    }
}

/// Whether the name is that of a directory.
pub open spec fn ends_with_slash(s: Seq<u8>) -> bool {
    s.len() > 0 && s.last() == SLASH
}

/// Where the last slash of a path is, or -1.
pub open spec fn last_slash(s: Seq<u8>) -> int
    decreases s.len(),
{
    if s.len() == 0 || s.last() == SLASH {
        s.len() - 1
    } else {
        last_slash(s.drop_last())
    }
}

/// The directory that an entry with this name lies in: what is before the last slash of the name,
/// not counting a trailing one.
pub open spec fn parent(s: Seq<u8>) -> Seq<u8> {
    let t = stripped(s);
    if last_slash(t) < 0 {
        Seq::empty()
    } else {
        t.take(last_slash(t))
    }
}

/// The components of a path, between its slashes.
pub open spec fn components(s: Seq<u8>) -> Seq<Seq<u8>>
    decreases s.len(),
{
    if slash_at(s) >= s.len() {
        seq![s]
    } else {
        seq![s.take(slash_at(s) as int)] + components(s.skip(slash_at(s) as int + 1))
    }
}

/// A component that stays where it is.
pub open spec fn stays(c: Seq<u8>) -> bool {
    c == Seq::<u8>::empty() || c == seq![DOT]
}

/// A component that goes up to the parent directory.
pub open spec fn goes_up(c: Seq<u8>) -> bool {
    c == seq![DOT, DOT]
}

/// Whether the components can be followed from a directory that is `depth` levels below the root.
/// Once they have gone down (`None`), they may not go up again.
pub open spec fn can_follow(cs: Seq<Seq<u8>>, depth: Option<nat>) -> bool
    decreases cs.len(),
{
    if cs.len() == 0 {
        true
    } else if stays(cs[0]) {
        can_follow(cs.drop_first(), depth)
    } else if goes_up(cs[0]) {
        match depth {
            Some(d) => d > 0 && can_follow(cs.drop_first(), Some((d - 1) as nat)),
            None => false,
        }
    } else {
        can_follow(cs.drop_first(), None)
    }
}

/// The number of slashes in a path.
pub open spec fn slashes(s: Seq<u8>) -> nat
    decreases s.len(),
{
    if s.len() == 0 {
        0
    } else {
        slashes(s.drop_last()) + if s.last() == SLASH {
            1nat
        } else {
            0nat
        }
    }
}

/// Whether a symlink with this name may have this target.
pub open spec fn valid_symlink(name: Seq<u8>, target: Seq<u8>, windows: bool) -> bool {
    !forbidden_path(target, windows) && can_follow(components(target), Some(slashes(name)))
}

/// Whether the byte occurs.
fn contains_byte(s: &[u8], b: u8) -> (r: bool)
    ensures
        r == s@.contains(b),
{
    let mut i: usize = 0;
    while i < s.len()
        invariant
            i <= s@.len(),
            forall|j: int| 0 <= j < i ==> s@[j] != b,
        decreases s@.len() - i,
    {
        if s[i] == b {
            assert(s@[i as int] == b);
            return true;
        }
        i += 1;
    }
    false
}

/// Whether the path is absolute, or holds a byte that no path in an archive may hold.
fn is_forbidden_path(s: &[u8], windows: bool) -> (r: bool)
    ensures
        r == forbidden_path(s@, windows),
{
    (s.len() > 0 && s[0] == SLASH) || contains_byte(s, BACKSLASH) || contains_byte(s, 0)
        || (windows && contains_byte(s, COLON))
}

/// Returns where the slash after `from` is, or the end of the path.
fn find_slash(s: &[u8], from: usize) -> (r: usize)
    requires
        from <= s@.len(),
    ensures
        from <= r <= s@.len(),
        r - from == slash_at(s@.skip(from as int)),
{
    let mut i: usize = from;
    while i < s.len() && s[i] != SLASH
        invariant
            from <= i <= s@.len(),
            forall|j: int| from <= j < i ==> s@[j] != SLASH,
        decreases s@.len() - i,
    {
        i += 1;
    }
    proof {
        let t = s@.skip(from as int);
        assert forall|j: int| 0 <= j < i - from implies t[j] != SLASH by {
            assert(t[j] == s@[from + j]);
        }
        lemma_slash_at_unique(t, i - from);
    }
    i
}

/// Validates the name of an entry and puts it in canonical form.
///
/// A name is not allowed where it is absolute, holds a backslash, a NUL byte or (on Windows) a
/// colon, has a `.` or `..` part, or is empty in canonical form. A `./` at the start and in the
/// middle is dropped, and so are repeated slashes.
pub fn validate_name(name: &str, windows: bool) -> (r: Option<String>)
    ensures
        match valid_name(name.spec_bytes(), windows) {
            Some(s) => r is Some && encode_utf8(r->0@) == s,
            None => r is None,
        },
{
    let bytes = name.as_bytes();
    let ghost all = bytes@;
    proof {
        encode_utf8_valid_utf8(name@);
        is_char_boundary_start_end_of_seq(all);
    }
    if is_forbidden_path(bytes, windows) {
        return None;
    }
    let mut dst = String::new();
    let mut i: usize = 0;
    assert(all.skip(0) =~= all);
    assert(encode_utf8(dst@) + joined(parts(all)) =~= joined(parts(all)));
    while i < bytes.len()
        invariant
            bytes@ == all,
            all == name.spec_bytes(),
            valid_utf8(all),
            i <= all.len(),
            is_char_boundary(all, i as int),
            no_forbidden(parts(all)) == no_forbidden(parts(all.skip(i as int))),
            joined(parts(all)) == encode_utf8(dst@) + joined(parts(all.skip(i as int))),
            !forbidden_path(all, windows),
        decreases all.len() - i,
    {
        let ghost rest = all.skip(i as int);
        let slash: usize = find_slash(bytes, i);
        let end: usize = if slash < bytes.len() {
            slash + 1
        } else {
            slash
        };
        let ghost part = rest.take(end - i);
        proof {
            lemma_slash_at(rest);
            assert(part_len(rest) == end - i);
            assert(rest.skip(end - i) =~= all.skip(end as int));
            assert(parts(rest).drop_first() =~= parts(all.skip(end as int)));
            assert(parts(rest)[0] == part);
            assert(slash < all.len() ==> all[slash as int] == rest[slash - i]);
            if slash < all.len() {
                text::lemma_boundary_after_ascii(all, slash as int);
            } else {
                is_char_boundary_start_end_of_seq(all);
            }
            valid_utf8_split(all, i as int);
        }
        let n: usize = end - i;
        proof {
            assert(n >= 1 ==> part[0] == all[i as int]);
            assert(n >= 2 ==> part[1] == all[i + 1]);
            assert(n >= 3 ==> part[2] == all[i + 2]);
        }
        let dot: bool = bytes[i] == DOT;
        let one_slash: bool = n == 1 && bytes[i] == SLASH;
        let one_dot: bool = n == 1 && dot;
        let dot_slash: bool = n == 2 && dot && bytes[i + 1] == SLASH;
        let two_dots: bool = n == 2 && dot && bytes[i + 1] == DOT;
        let two_dots_slash: bool = n == 3 && dot && bytes[i + 1] == DOT && bytes[i + 2] == SLASH;
        proof {
            if one_dot {
                assert(part =~= seq![DOT]);
            }
            if two_dots {
                assert(part =~= seq![DOT, DOT]);
            }
            if two_dots_slash {
                assert(part =~= seq![DOT, DOT, SLASH]);
            }
            if one_slash {
                assert(part =~= seq![SLASH]);
            }
            if dot_slash {
                assert(part =~= seq![DOT, SLASH]);
            }
            assert((one_dot || two_dots || two_dots_slash) == forbidden_part(part));
            assert((one_slash || dot_slash) == idle_part(part));
        }
        if one_dot || two_dots || two_dots_slash {
            return None;
        }
        if !one_slash && !dot_slash {
            let (head, tail) = name.split_at(end);
            proof {
                let h = all.subrange(0, end as int);
                valid_utf8_split(all, end as int);
                is_char_boundary_start_end_of_seq(h);
                if i < h.len() {
                    is_char_boundary_iff_not_is_continuation_byte(all, i as int);
                    assert(h[i as int] == all[i as int]);
                    is_char_boundary_iff_not_is_continuation_byte(h, i as int);
                }
            }
            let (before, piece) = head.split_at(i);
            proof {
                assert(piece.spec_bytes() =~= part);
                text::lemma_encode_concat(dst@, piece@);
                assert(encode_utf8(dst@) + (part + joined(parts(all.skip(end as int)))) =~= (
                encode_utf8(dst@) + part) + joined(parts(all.skip(end as int))));
            }
            dst.append(piece);
        }
        i = end;
    }
    proof {
        assert(all.skip(i as int) =~= Seq::<u8>::empty());
        assert(encode_utf8(dst@) =~= joined(parts(all)));
    }
    if dst.as_str().as_bytes().len() == 0 {
        return None;
    }
    Some(dst)
}

/// Whether a symlink with this name may have this target, without leaving the directory that
/// holds the archive.
pub fn validate_symlink(name: &str, target: &str, windows: bool) -> (r: bool)
    ensures
        r == valid_symlink(name.spec_bytes(), target.spec_bytes(), windows),
{
    let bytes = target.as_bytes();
    let ghost all = bytes@;
    if is_forbidden_path(bytes, windows) {
        return false;
    }
    let name_bytes = name.as_bytes();
    let mut count: usize = 0;
    let mut k: usize = 0;
    while k < name_bytes.len()
        invariant
            k <= name_bytes@.len(),
            count <= k,
            count == slashes(name_bytes@.take(k as int)),
        decreases name_bytes@.len() - k,
    {
        assert(name_bytes@.take(k + 1).drop_last() =~= name_bytes@.take(k as int));
        if name_bytes[k] == SLASH {
            count += 1;
        }
        k += 1;
    }
    assert(name_bytes@.take(k as int) =~= name_bytes@);
    let mut depth: Option<usize> = Some(count);
    let mut i: usize = 0;
    assert(all.skip(0) =~= all);
    loop
        invariant
            bytes@ == all,
            i <= all.len(),
            !forbidden_path(all, windows),
            all == target.spec_bytes(),
            can_follow(components(all), Some(slashes(name.spec_bytes()))) == can_follow(
                components(all.skip(i as int)),
                match depth {
                    Some(d) => Some(d as nat),
                    None => None,
                },
            ),
        decreases all.len() - i,
    {
        let ghost rest = all.skip(i as int);
        let end: usize = find_slash(bytes, i);
        let ghost part = rest.take(end - i);
        let n: usize = end - i;
        proof {
            lemma_slash_at(rest);
            assert(components(rest)[0] =~= part);
            if end < all.len() {
                assert(rest.skip(end - i + 1) =~= all.skip(end + 1));
                assert(components(rest).drop_first() =~= components(all.skip(end + 1)));
            } else {
                assert(components(rest).drop_first() =~= Seq::<Seq<u8>>::empty());
            }
            assert(n >= 1 ==> part[0] == all[i as int]);
            assert(n >= 2 ==> part[1] == all[i + 1]);
        }
        let idle: bool = n == 0 || (n == 1 && bytes[i] == DOT);
        let up: bool = n == 2 && bytes[i] == DOT && bytes[i + 1] == DOT;
        proof {
            if n == 0 {
                assert(part =~= Seq::<u8>::empty());
            }
            if n == 1 && all[i as int] == DOT {
                assert(part =~= seq![DOT]);
            }
            if up {
                assert(part =~= seq![DOT, DOT]);
            }
            assert(idle == stays(part));
            assert(up == goes_up(part));
        }
        if !idle {
            if up {
                match depth {
                    Some(d) => {
                        if d == 0 {
                            return false;
                        }
                        depth = Some(d - 1);
                    },
                    None => {
                        return false;
                    },
                }
            } else {
                depth = None;
            }
        }
        if end == bytes.len() {
            proof {
                reveal_with_fuel(can_follow, 2);
            }
            return true;
        }
        i = end + 1;
    }
}

/// Whether the name is that of a directory.
pub fn is_directory_name(name: &str) -> (r: bool)
    ensures
        r == ends_with_slash(name.spec_bytes()),
{
    let bytes = name.as_bytes();
    bytes.len() > 0 && bytes[bytes.len() - 1] == SLASH
}

/// The last slash lies within the path.
proof fn lemma_last_slash(s: Seq<u8>)
    ensures
        -1 <= last_slash(s) < s.len(),
        last_slash(s) >= 0 ==> s[last_slash(s)] == SLASH,
    decreases s.len(),
{
    if s.len() != 0 && s.last() != SLASH {
        lemma_last_slash(s.drop_last());
    }
}

/// Returns the directory that an entry with this name lies in.
pub fn parent_of(name: &str) -> (r: &str)
    ensures
        r.spec_bytes() == parent(name.spec_bytes()),
{
    let bytes = name.as_bytes();
    let ghost t = stripped(bytes@);
    let mut i: usize = bytes.len();
    if is_directory_name(name) {
        i = i - 1;
    }
    assert(bytes@.take(i as int) =~= t);
    while i > 0 && bytes[i - 1] != SLASH
        invariant
            i <= bytes@.len(),
            last_slash(t) == last_slash(bytes@.take(i as int)),
        decreases i,
    {
        assert(bytes@.take(i as int).drop_last() =~= bytes@.take(i - 1));
        i = i - 1;
    }
    if i > 0 {
        i = i - 1;
    }
    proof {
        encode_utf8_valid_utf8(name@);
        is_char_boundary_start_end_of_seq(bytes@);
        lemma_last_slash(t);
        if i > 0 {
            is_char_boundary_iff_not_is_continuation_byte(bytes@, i as int);
        }
    }
    let (head, tail) = name.split_at(i);
    assert(head.spec_bytes() =~= parent(bytes@));
    head
}

/// Returns the bytes of the name without its trailing slash.
pub fn strip_name(name: &str) -> (r: Vec<u8>)
    ensures
        r@ == stripped(name.spec_bytes()),
{
    let bytes = name.as_bytes();
    let mut r = vstd::slice::slice_to_vec(bytes);
    if is_directory_name(name) {
        let _ = r.pop();
    }
    assert(r@ =~= stripped(name.spec_bytes()));
    r
}

} // verus!
