//! Names and targets in terms of what stands between their slashes.
use crate::utils::names;
use vstd::prelude::*;

verus! {

/// The components of a path: what stands between its slashes. A path without a slash has one.
pub open spec fn split(s: Seq<u8>) -> Seq<Seq<u8>>
    decreases s.len(),
{
    if s.len() == 0 {
        seq![Seq::empty()]
    } else {
        let rest = split(s.drop_first());
        if s[0] == 0x2f {
            seq![Seq::<u8>::empty()] + rest
        } else {
            seq![seq![s[0]] + rest[0]] + rest.drop_first()
        }
    }
}

/// Components with slashes between them.
pub open spec fn join(cs: Seq<Seq<u8>>) -> Seq<u8>
    decreases cs.len(),
{
    if cs.len() == 0 {
        Seq::empty()
    } else if cs.len() == 1 {
        cs[0]
    } else {
        cs[0] + seq![0x2fu8] + join(cs.drop_first())
    }
}

/// Whether a component is a name, and not empty or a dot.
pub open spec fn named(c: Seq<u8>) -> bool {
    c.len() > 0 && c != seq![0x2eu8]
}

/// Whether a component is two dots.
pub open spec fn up(c: Seq<u8>) -> bool {
    c == seq![0x2eu8, 0x2eu8]
}

/// The components that are names, in order.
pub open spec fn proper(cs: Seq<Seq<u8>>) -> Seq<Seq<u8>>
    decreases cs.len(),
{
    if cs.len() == 0 {
        Seq::empty()
    } else if named(cs[0]) {
        seq![cs[0]] + proper(cs.drop_first())
    } else {
        proper(cs.drop_first())
    }
}

/// The number of components that are two dots.
pub open spec fn ups(cs: Seq<Seq<u8>>) -> nat
    decreases cs.len(),
{
    if cs.len() == 0 {
        0
    } else {
        ups(cs.drop_first()) + if up(cs[0]) {
            1nat
        } else {
            0nat
        }
    }
}

/// Whether a path is relative and holds none of the bytes that are not allowed: a backslash, a NUL,
/// and on Windows a colon.
pub open spec fn clean(s: Seq<u8>, windows: bool) -> bool {
    &&& s.len() > 0 ==> s[0] != 0x2f
    &&& forall|i: int|
        0 <= i < s.len() ==> (#[trigger] s[i]) != 0x5c && s[i] != 0 && (windows ==> s[i] != 0x3a)
}

/// There is always a component, and the components are those that names and targets are made of.
proof fn lemma_split(s: Seq<u8>)
    ensures
        split(s).len() > 0,
        split(s) == names::components(s),
    decreases s.len(),
{
    if s.len() == 0 {
        assert(s =~= Seq::<u8>::empty());
    } else {
        let t = s.drop_first();
        lemma_split(t);
        names::lemma_slash_at(s);
        names::lemma_slash_at(t);
        if s[0] == names::SLASH {
            assert(s.skip(1) =~= t);
            assert(s.take(0) =~= Seq::<u8>::empty());
        } else {
            let k = names::slash_at(t) as int;
            if k >= t.len() {
                assert(seq![s[0]] + t =~= s);
                assert(split(s) =~= seq![s]);
            } else {
                assert(s.skip(k + 2) =~= t.skip(k + 1));
                assert(s.take(k + 1) =~= seq![s[0]] + t.take(k));
                assert(names::components(t).drop_first() =~= names::components(t.skip(k + 1)));
            }
        }
        assert(split(s) =~= names::components(s));
    }
}

/// The components of a path with slashes between them are the path.
pub proof fn lemma_join_split(s: Seq<u8>)
    ensures
        join(split(s)) == s,
    decreases s.len(),
{
    if s.len() > 0 {
        let t = s.drop_first();
        let rest = split(t);
        lemma_split(t);
        lemma_join_split(t);
        if s[0] == 0x2f {
            assert(split(s).drop_first() =~= rest);
            assert(join(split(s)) =~= s);
        } else {
            assert(split(s).drop_first() =~= rest.drop_first());
            if rest.len() > 1 {
                assert(join(split(s)) =~= seq![s[0]] + join(rest));
            }
            assert(seq![s[0]] + t =~= s);
            assert(join(split(s)) =~= s);
        }
    }
}

/// Whether no component is two dots, and the last one is not a dot.
spec fn allowed(cs: Seq<Seq<u8>>) -> bool {
    &&& forall|k: int| 0 <= k < cs.len() ==> !up(#[trigger] cs[k])
    &&& cs.len() > 0 ==> cs.last() != seq![0x2eu8]
}

/// What the end of a path adds to its components: a slash, where it ends with one.
pub open spec fn ending(s: Seq<u8>) -> Seq<u8> {
    if s.len() > 0 && s.last() == 0x2f {
        seq![0x2fu8]
    } else {
        Seq::empty()
    }
}

/// The parts of a path in terms of its components.
proof fn lemma_parts(s: Seq<u8>)
    ensures
        names::no_forbidden(names::parts(s)) == allowed(names::components(s)),
        allowed(names::components(s)) ==> names::joined(names::parts(s)) == (if proper(
            names::components(s),
        ).len() == 0 {
            Seq::<u8>::empty()
        } else {
            join(proper(names::components(s))) + ending(s)
        }),
        allowed(names::components(s)) && proper(names::components(s)).len() == 0 && s.len() > 0
            ==> s.last() == 0x2f,
    decreases s.len(),
{
    let cs = names::components(s);
    let ps = names::parts(s);
    let k = names::slash_at(s) as int;
    let none = Seq::<Seq<u8>>::empty();
    assert(proper(none) =~= none);
    assert(names::joined(none) =~= Seq::<u8>::empty());
    names::lemma_slash_at(s);
    assert(seq![0x2eu8].len() != seq![0x2eu8, 0x2eu8].len());
    if s.len() == 0 {
        assert(s =~= Seq::<u8>::empty());
        assert(cs =~= seq![s]);
        assert(cs.drop_first() =~= Seq::<Seq<u8>>::empty());
    } else if k >= s.len() {
        assert(s.take(s.len() as int) =~= s);
        assert(s.skip(s.len() as int) =~= Seq::<u8>::empty());
        assert(names::parts(Seq::<u8>::empty()) =~= Seq::<Seq<u8>>::empty());
        assert(ps =~= seq![s]);
        assert(cs =~= seq![s]);
        assert(ps.drop_first() =~= Seq::<Seq<u8>>::empty());
        assert(cs.drop_first() =~= Seq::<Seq<u8>>::empty());
        assert(s[s.len() - 1] != names::SLASH);
        assert(s != seq![names::DOT, names::DOT, names::SLASH]);
        assert(s != seq![names::SLASH] && s != seq![names::DOT, names::SLASH]);
        assert(cs[0] == s);
        assert(names::no_forbidden(ps.drop_first()));
        assert(names::joined(ps) =~= s);
        if named(s) {
            assert(proper(cs) =~= seq![s]);
            assert(join(proper(cs)) + ending(s) =~= s);
        }
    } else {
        let c = s.take(k);
        let p = s.take(k + 1);
        let t = s.skip(k + 1);
        let rest = names::components(t);
        lemma_parts(t);
        lemma_split(t);
        assert(ps =~= seq![p] + names::parts(t));
        assert(ps.drop_first() =~= names::parts(t));
        assert(cs =~= seq![c] + rest);
        assert(cs.drop_first() =~= rest);
        assert(p =~= c.push(names::SLASH));
        // The first part is a component with a slash.
        assert(p == seq![names::DOT, names::DOT, names::SLASH] <==> up(c)) by {
            if up(c) {
                assert(p =~= seq![names::DOT, names::DOT, names::SLASH]);
            } else if p == seq![names::DOT, names::DOT, names::SLASH] {
                assert(c =~= seq![0x2eu8, 0x2eu8]);
            }
        }
        assert(names::idle_part(p) <==> !named(c)) by {
            if c.len() == 0 {
                assert(p =~= seq![names::SLASH]);
            }
            if c == seq![0x2eu8] {
                assert(p =~= seq![names::DOT, names::SLASH]);
            }
            if p == seq![names::SLASH] {
                assert(c.len() == 0);
            }
            if p == seq![names::DOT, names::SLASH] {
                assert(c =~= seq![0x2eu8]);
            }
        }
        assert(p.last() == names::SLASH);
        assert(p != seq![names::DOT] && p != seq![names::DOT, names::DOT]);
        assert(names::forbidden_part(p) == up(c));
        assert(allowed(cs) == (!up(c) && allowed(rest))) by {
            assert(cs[0] == c);
            assert(cs.last() == rest.last());
            if allowed(cs) {
                assert forall|j: int| 0 <= j < rest.len() implies !up(#[trigger] rest[j]) by {
                    assert(cs[j + 1] == rest[j]);
                }
            }
            if !up(c) && allowed(rest) {
                assert forall|j: int| 0 <= j < cs.len() implies !up(#[trigger] cs[j]) by {
                    if j > 0 {
                        assert(cs[j] == rest[j - 1]);
                    }
                }
            }
        }
        if t.len() > 0 {
            assert(s.last() == t.last());
        } else {
            assert(s[k] == s.last());
        }
        if allowed(cs) {
            if named(c) {
                let q = proper(rest);
                assert(proper(cs) == seq![c] + q);
                assert(proper(cs).drop_first() =~= q);
                if q.len() == 0 {
                    assert(join(proper(cs)) == c);
                    assert(names::joined(ps) =~= p);
                    assert(p =~= join(proper(cs)) + ending(s));
                } else {
                    assert(t.len() > 0) by {
                        if t.len() == 0 {
                            assert(t =~= Seq::<u8>::empty());
                            assert(rest =~= seq![t]);
                            assert(rest.drop_first() =~= none);
                        }
                    }
                    assert(names::joined(ps) =~= p + (join(q) + ending(t)));
                    assert(join(proper(cs)) + ending(s) =~= p + (join(q) + ending(t)));
                }
            } else {
                assert(proper(cs) == proper(rest));
                assert(names::joined(ps) == names::joined(names::parts(t)));
                if proper(rest).len() > 0 && t.len() == 0 {
                    assert(t =~= Seq::<u8>::empty());
                    assert(rest =~= seq![t]);
                    assert(rest.drop_first() =~= none);
                }
            }
        }
    }
}

/// A path is clean where it is not one of those that are refused as a whole.
proof fn lemma_clean(s: Seq<u8>, windows: bool)
    ensures
        clean(s, windows) == !names::forbidden_path(s, windows),
{
    if names::forbidden_path(s, windows) {
        if s.contains(names::BACKSLASH) {
            let i = choose|i: int| 0 <= i < s.len() && s[i] == names::BACKSLASH;
            assert(s[i] == 0x5c);
        }
        if s.contains(0u8) {
            let i = choose|i: int| 0 <= i < s.len() && s[i] == 0u8;
            assert(s[i] == 0);
        }
        if windows && s.contains(names::COLON) {
            let i = choose|i: int| 0 <= i < s.len() && s[i] == names::COLON;
            assert(s[i] == 0x3a);
        }
    }
}

/// The components that are names are some of the components, and none where no component is.
proof fn lemma_proper(cs: Seq<Seq<u8>>)
    ensures
        proper(cs).len() > 0 <==> exists|k: int| 0 <= k < cs.len() && named(#[trigger] cs[k]),
    decreases cs.len(),
{
    if cs.len() > 0 {
        let rest = cs.drop_first();
        lemma_proper(rest);
        if exists|k: int| 0 <= k < cs.len() && named(#[trigger] cs[k]) {
            let k = choose|k: int| 0 <= k < cs.len() && named(#[trigger] cs[k]);
            if k > 0 {
                assert(rest[k - 1] == cs[k]);
            }
        }
        if proper(cs).len() > 0 {
            if named(cs[0]) {
                assert(named(cs[0]));
            } else {
                let k = choose|k: int| 0 <= k < rest.len() && named(#[trigger] rest[k]);
                assert(cs[k + 1] == rest[k]);
            }
        }
    }
}

/// A name is allowed exactly where it is relative, holds no forbidden byte, no component of it is
/// two dots, it does not end with a dot as a component, and some component is a name. Its canonical
/// form is made of all the components that are names, in order and with single slashes between
/// them, and ends with a slash where the name does.
pub proof fn lemma_canonical_form(s: Seq<u8>, windows: bool)
    ensures
        names::valid_name(s, windows) is Some <==> {
            &&& clean(s, windows)
            &&& forall|k: int| 0 <= k < split(s).len() ==> !up(#[trigger] split(s)[k])
            &&& split(s).last() != seq![0x2eu8]
            &&& exists|k: int| 0 <= k < split(s).len() && named(#[trigger] split(s)[k])
        },
        names::valid_name(s, windows) is Some ==> names::valid_name(s, windows)->0 == join(
            proper(split(s)),
        ) + ending(s),
{
    lemma_split(s);
    lemma_clean(s, windows);
    lemma_parts(s);
    lemma_proper(split(s));
    let q = proper(split(s));
    if q.len() > 0 && allowed(split(s)) {
        assert(join(q).len() > 0) by {
            lemma_proper_named(split(s));
        }
    }
}

/// The components that are kept are names, so that something is left of a path that has one.
proof fn lemma_proper_named(cs: Seq<Seq<u8>>)
    ensures
        forall|k: int| 0 <= k < proper(cs).len() ==> named(#[trigger] proper(cs)[k]),
        proper(cs).len() > 0 ==> join(proper(cs)).len() > 0,
    decreases cs.len(),
{
    if cs.len() > 0 {
        let rest = cs.drop_first();
        lemma_proper_named(rest);
        if named(cs[0]) {
            assert forall|k: int| 0 <= k < proper(cs).len() implies named(
                #[trigger] proper(cs)[k],
            ) by {
                if k > 0 {
                    assert(proper(cs)[k] == proper(rest)[k - 1]);
                }
            }
            assert(proper(cs)[0] == cs[0]);
        }
    }
}

/// Where every component is a name, nothing is dropped.
proof fn lemma_all_proper(cs: Seq<Seq<u8>>)
    requires
        forall|k: int| 0 <= k < cs.len() ==> named(#[trigger] cs[k]),
    ensures
        proper(cs) == cs,
    decreases cs.len(),
{
    if cs.len() > 0 {
        let rest = cs.drop_first();
        assert forall|k: int| 0 <= k < rest.len() implies named(#[trigger] rest[k]) by {
            assert(rest[k] == cs[k + 1]);
        }
        lemma_all_proper(rest);
        assert(seq![cs[0]] + rest =~= cs);
    } else {
        assert(proper(cs) =~= cs);
    }
}

/// The last component is empty exactly where the path is empty or ends with a slash.
proof fn lemma_last(s: Seq<u8>)
    ensures
        s.len() > 0 && split(s).last().len() == 0 ==> s.last() == 0x2f,
        s.len() > 0 && s.last() == 0x2f ==> split(s).last().len() == 0 && split(s).len() > 1,
    decreases s.len(),
{
    if s.len() > 0 {
        let t = s.drop_first();
        lemma_last(t);
        lemma_split(t);
        if t.len() > 0 {
            assert(s.last() == t.last());
            if split(t).len() > 1 {
                assert(split(s).last() == split(t).last());
            } else {
                assert(s[0] != 0x2f ==> split(s).last() =~= seq![s[0]] + split(t)[0]);
                assert(s[0] == 0x2f ==> split(s).last() == split(t).last());
            }
        } else {
            assert(split(t) =~= seq![Seq::<u8>::empty()]);
        }
    }
}

/// Components with an empty one behind them are the components with a slash behind them.
proof fn lemma_join_empty(cs: Seq<Seq<u8>>)
    requires
        cs.len() > 0,
    ensures
        join(cs.push(Seq::empty())) == join(cs) + seq![0x2fu8],
    decreases cs.len(),
{
    let all = cs.push(Seq::<u8>::empty());
    if cs.len() == 1 {
        assert(all.drop_first() =~= seq![Seq::<u8>::empty()]);
        assert(join(all.drop_first()) =~= Seq::<u8>::empty());
        assert(join(all) =~= join(cs) + seq![0x2fu8]);
    } else {
        lemma_join_empty(cs.drop_first());
        assert(all.drop_first() =~= cs.drop_first().push(Seq::empty()));
        assert(join(all) =~= join(cs) + seq![0x2fu8]);
    }
}

/// A relative name without forbidden bytes, none of whose components is empty, a dot or two dots, is
/// its own canonical form. It may end with a slash.
pub proof fn lemma_plain_name(s: Seq<u8>, windows: bool)
    requires
        s.len() > 0,
        clean(s, windows),
        forall|k: int| 0 <= k < split(s).len() ==> !up(#[trigger] split(s)[k]),
        forall|k: int|
            0 <= k < split(s).len() ==> named(#[trigger] split(s)[k]) || (k == split(s).len() - 1
                && k > 0 && split(s)[k].len() == 0),
    ensures
        names::valid_name(s, windows) == Some(s),
{
    let cs = split(s);
    lemma_split(s);
    lemma_canonical_form(s, windows);
    lemma_join_split(s);
    lemma_last(s);
    assert(named(cs[0]));
    if cs.last().len() == 0 {
        let front = cs.drop_last();
        assert forall|k: int| 0 <= k < front.len() implies named(#[trigger] front[k]) by {
            assert(front[k] == cs[k]);
        }
        lemma_all_proper(front);
        lemma_proper_push(front);
        assert(cs.last() =~= Seq::<u8>::empty());
        assert(cs =~= front.push(Seq::empty()));
        lemma_join_empty(front);
    } else {
        assert(named(cs[cs.len() - 1]));
        lemma_all_proper(cs);
        assert(join(cs) + ending(s) =~= s);
    }
}

/// An empty component behind the others is dropped.
proof fn lemma_proper_push(cs: Seq<Seq<u8>>)
    ensures
        proper(cs.push(Seq::empty())) == proper(cs),
    decreases cs.len(),
{
    let all = cs.push(Seq::<u8>::empty());
    if cs.len() == 0 {
        assert(all.drop_first() =~= cs);
    } else {
        assert(all.drop_first() =~= cs.drop_first().push(Seq::empty()));
        lemma_proper_push(cs.drop_first());
    }
}

/// The components can be followed where there are not too many that go up, and none that does so
/// behind one that goes down.
proof fn lemma_follow(cs: Seq<Seq<u8>>, depth: Option<nat>)
    ensures
        names::can_follow(cs, depth) == match depth {
            Some(d) => ups(cs) <= d && forall|i: int, j: int|
                0 <= i < j < cs.len() && named(#[trigger] cs[i]) && !up(cs[i]) ==> !up(
                    #[trigger] cs[j],
                ),
            None => ups(cs) == 0,
        },
    decreases cs.len(),
{
    if cs.len() > 0 {
        let c = cs[0];
        let rest = cs.drop_first();
        assert(seq![0x2eu8].len() != seq![0x2eu8, 0x2eu8].len());
        assert(names::stays(c) == !named(c)) by {
            if c.len() == 0 {
                assert(c =~= Seq::<u8>::empty());
            }
        }
        let next = if names::stays(c) {
            depth
        } else if names::goes_up(c) {
            match depth {
                Some(d) => if d > 0 {
                    Some((d - 1) as nat)
                } else {
                    None
                },
                None => None,
            }
        } else {
            None
        };
        lemma_follow(rest, next);
        lemma_ups(rest);
        assert forall|j: int| 0 <= j < rest.len() implies #[trigger] rest[j] == cs[j + 1] by {}
        match depth {
            Some(d) => {
                let ordered = forall|i: int, j: int|
                    0 <= i < j < cs.len() && named(#[trigger] cs[i]) && !up(cs[i]) ==> !up(
                        #[trigger] cs[j],
                    );
                let ordered_rest = forall|i: int, j: int|
                    0 <= i < j < rest.len() && named(#[trigger] rest[i]) && !up(rest[i]) ==> !up(
                        #[trigger] rest[j],
                    );
                if ordered {
                    assert(ordered_rest) by {
                        assert forall|i: int, j: int|
                            0 <= i < j < rest.len() && named(#[trigger] rest[i]) && !up(
                                rest[i],
                            ) implies !up(#[trigger] rest[j]) by {
                            assert(named(cs[i + 1]) && !up(cs[i + 1]));
                            assert(!up(cs[j + 1]));
                        }
                    }
                    if named(c) && !up(c) {
                        assert(ups(rest) == 0) by {
                            if ups(rest) > 0 {
                                let j = choose|j: int| 0 <= j < rest.len() && up(#[trigger] rest[j]);
                                assert(up(cs[j + 1]));
                                assert(named(cs[0]));
                            }
                        }
                    }
                }
                if ordered_rest && (!named(c) || up(c) || ups(rest) == 0) {
                    assert forall|i: int, j: int|
                        0 <= i < j < cs.len() && named(#[trigger] cs[i]) && !up(
                            cs[i],
                        ) implies !up(#[trigger] cs[j]) by {
                        assert(rest[j - 1] == cs[j]);
                        if i > 0 {
                            assert(rest[i - 1] == cs[i]);
                        } else if up(cs[j]) {
                            assert(up(rest[j - 1]));
                        }
                    }
                }
                if ups(rest) == 0 {
                    assert(ordered_rest) by {
                        assert forall|i: int, j: int|
                            0 <= i < j < rest.len() && named(#[trigger] rest[i]) && !up(
                                rest[i],
                            ) implies !up(#[trigger] rest[j]) by {
                            if up(rest[j]) {
                                assert(ups(rest) > 0);
                            }
                        }
                    }
                }
            },
            None => {},
        }
    }
}

/// There are components that go up exactly where they are counted.
proof fn lemma_ups(cs: Seq<Seq<u8>>)
    ensures
        ups(cs) > 0 <==> exists|k: int| 0 <= k < cs.len() && up(#[trigger] cs[k]),
    decreases cs.len(),
{
    if cs.len() > 0 {
        let rest = cs.drop_first();
        lemma_ups(rest);
        if exists|k: int| 0 <= k < cs.len() && up(#[trigger] cs[k]) {
            let k = choose|k: int| 0 <= k < cs.len() && up(#[trigger] cs[k]);
            if k > 0 {
                assert(up(rest[k - 1]));
            }
        }
        if ups(cs) > 0 {
            if up(cs[0]) {
                assert(up(cs[0]));
            } else {
                let k = choose|k: int| 0 <= k < rest.len() && up(#[trigger] rest[k]);
                assert(up(cs[k + 1]));
            }
        }
    }
}

/// The slashes of a path in two pieces are those of the pieces.
proof fn lemma_slashes_concat(a: Seq<u8>, b: Seq<u8>)
    ensures
        names::slashes(a + b) == names::slashes(a) + names::slashes(b),
    decreases b.len(),
{
    if b.len() == 0 {
        assert(a + b =~= a);
    } else {
        assert((a + b).drop_last() =~= a + b.drop_last());
        lemma_slashes_concat(a, b.drop_last());
    }
}

/// A path has one component more than it has slashes.
pub proof fn lemma_count(s: Seq<u8>)
    ensures
        split(s).len() == names::slashes(s) + 1,
    decreases s.len(),
{
    if s.len() > 0 {
        let t = s.drop_first();
        lemma_count(t);
        lemma_slashes_concat(seq![s[0]], t);
        assert(seq![s[0]] + t =~= s);
        assert(seq![s[0]].drop_last() =~= Seq::<u8>::empty());
        assert(names::slashes(Seq::<u8>::empty()) == 0);
    }
}

/// A symlink may have a target exactly where the target is relative, holds no forbidden byte, goes
/// up at most as many times as the name of the symlink has directories, and does not go up again
/// once it has gone down.
pub proof fn lemma_symlink_targets(name: Seq<u8>, target: Seq<u8>, windows: bool)
    ensures
        names::valid_symlink(name, target, windows) <==> {
            &&& clean(target, windows)
            &&& ups(split(target)) < split(name).len()
            &&& forall|i: int, j: int|
                0 <= i < j < split(target).len() && named(#[trigger] split(target)[i]) && !up(
                    split(target)[i],
                ) ==> !up(#[trigger] split(target)[j])
        },
{
    lemma_clean(target, windows);
    lemma_split(target);
    lemma_count(name);
    lemma_follow(split(target), Some(names::slashes(name)));
}

/// A name without its trailing slash is the name, but for that slash.
pub proof fn lemma_stripped(s: Seq<u8>)
    ensures
        s == names::stripped(s) + ending(s),
{
    assert(s =~= names::stripped(s) + ending(s));
}

/// The directory that an entry lies in is what is before the last slash of its name, not counting a
/// trailing one, and nothing where there is no such slash.
pub proof fn lemma_parent(s: Seq<u8>)
    ensures
        ({
            let t = names::stripped(s);
            let at = names::parent(s).len();
            if t.contains(0x2f) {
                &&& at < t.len()
                &&& t[at as int] == 0x2f
                &&& names::parent(s) == t.take(at as int)
                &&& forall|i: int| at < i < t.len() ==> t[i] != 0x2f
            } else {
                at == 0
            }
        }),
{
    let t = names::stripped(s);
    lemma_last_slash(t);
    if t.contains(0x2f) {
        let i = choose|i: int| 0 <= i < t.len() && t[i] == 0x2f;
        assert(names::last_slash(t) >= i);
        assert(names::parent(s) =~= t.take(names::last_slash(t)));
    } else if names::last_slash(t) >= 0 {
        assert(t[names::last_slash(t)] == 0x2f);
    }
}

/// Behind the last slash there is none.
proof fn lemma_last_slash(s: Seq<u8>)
    ensures
        -1 <= names::last_slash(s) < s.len(),
        names::last_slash(s) >= 0 ==> s[names::last_slash(s)] == 0x2f,
        forall|i: int| names::last_slash(s) < i < s.len() && 0 <= i ==> s[i] != 0x2f,
    decreases s.len(),
{
    if s.len() > 0 && s.last() != names::SLASH {
        let t = s.drop_last();
        lemma_last_slash(t);
        assert forall|i: int| names::last_slash(s) < i < s.len() && 0 <= i implies s[i] != 0x2f by {
            if i < t.len() {
                assert(s[i] == t[i]);
            }
        }
        if names::last_slash(t) >= 0 {
            assert(s[names::last_slash(t)] == t[names::last_slash(t)]);
        }
    }
}

} // verus!
