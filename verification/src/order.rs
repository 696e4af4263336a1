//! The order of texts, and things kept in it.
use vstd::prelude::*;
use vstd::string::StringExecFns;
use crate::animation::{animation_fault, Animation};
use crate::id::LightId;
use crate::text::{chars_of, debug_text, is_text, owned, quoted};

verus! {

/// A text comes before another: at the first character in which they differ, or
/// because it ends there.
pub open spec fn comes_before(a: Seq<char>, b: Seq<char>) -> bool
    decreases a.len(),
{
    if b.len() == 0 {
        false
    } else if a.len() == 0 {
        true
    } else if a[0] != b[0] {
        a[0] < b[0]
    } else {
        comes_before(a.drop_first(), b.drop_first())
    }
}

/// Of two different texts exactly one comes before the other, and none comes
/// before itself.
pub proof fn order_is_total(a: Seq<char>, b: Seq<char>)
    ensures
        a != b ==> (comes_before(a, b) <==> !comes_before(b, a)),
        a == b ==> !comes_before(a, b),
    decreases a.len(),
{
    if a.len() == 0 || b.len() == 0 {
        if a.len() == 0 && b.len() == 0 {
            assert(a =~= b);
        }
    } else if a[0] == b[0] {
        order_is_total(a.drop_first(), b.drop_first());
        assert(a =~= seq![a[0]] + a.drop_first());
        assert(b =~= seq![b[0]] + b.drop_first());
    }
}

/// What comes before something that comes before a text comes before it.
pub proof fn order_is_transitive(a: Seq<char>, b: Seq<char>, c: Seq<char>)
    requires
        comes_before(a, b),
        comes_before(b, c),
    ensures
        comes_before(a, c),
    decreases a.len(),
{
    if a.len() > 0 && a[0] == b[0] && b[0] == c[0] {
        order_is_transitive(a.drop_first(), b.drop_first(), c.drop_first());
    }
}

/// Tells whether a text comes before another.
pub fn before(a: &str, b: &str) -> (r: bool)
    ensures
        r == comes_before(a@, b@),
{
    let x = chars_of(a);
    let y = chars_of(b);
    let mut i: usize = 0;
    assert(a@.skip(0) =~= a@);
    assert(b@.skip(0) =~= b@);
    while i < x.len() && i < y.len() && x[i] == y[i]
        invariant
            i <= x@.len(),
            i <= y@.len(),
            x@ == a@,
            y@ == b@,
            comes_before(a@, b@) == comes_before(a@.skip(i as int), b@.skip(i as int)),
        decreases x.len() - i,
    {
        assert(a@.skip(i as int).drop_first() =~= a@.skip(i + 1));
        assert(b@.skip(i as int).drop_first() =~= b@.skip(i + 1));
        i += 1;
    }
    if i == y.len() {
        false
    } else if i == x.len() {
        true
    } else {
        x[i] < y[i]
    }
}

/// Identifiers in ascending order.
pub open spec fn ids_in_order(ids: Seq<LightId>) -> bool {
    forall|i: int, j: int|
        0 <= i < j < ids.len() ==> !comes_before((#[trigger] ids[j])@, (#[trigger] ids[i])@)
}

/// Sorts identifiers.
pub fn sort_ids(ids: &Vec<LightId>) -> (r: Vec<LightId>)
    ensures
        ids_in_order(r@),
        r@.to_multiset() == ids@.to_multiset(),
        r@.len() == ids@.len(),
{
    let mut r: Vec<LightId> = Vec::new();
    let mut i: usize = 0;
    assert(ids@.take(0) =~= Seq::<LightId>::empty());
    while i < ids.len()
        invariant
            i <= ids@.len(),
            r@.len() == i,
            ids_in_order(r@),
            r@.to_multiset() == ids@.take(i as int).to_multiset(),
        decreases ids.len() - i,
    {
        let id = ids[i].clone();
        let ghost value = id;
        let mut place: usize = 0;
        while place < r.len() && !before(id.as_str(), r[place].as_str())
            invariant
                place <= r@.len(),
                id == value,
                forall|j: int| 0 <= j < place ==> !comes_before(value@, (#[trigger] r@[j])@),
            decreases r.len() - place,
        {
            place += 1;
        }
        let ghost whole = r@;
        r.insert(place, id);
        proof {
            let after = r@;
            assert(after == whole.insert(place as int, value));
            assert(after.remove(place as int) =~= whole);
            after.to_multiset_ensures();
            whole.to_multiset_ensures();
            ids@.take(i as int).to_multiset_ensures();
            assert(after[place as int] == value);
            assert(after.contains(value));
            assert(after.to_multiset() =~= whole.to_multiset().insert(value));
            assert(ids@.take(i + 1) =~= ids@.take(i as int).push(value));
            assert forall|a: int, b: int| 0 <= a < b < after.len() implies !comes_before(
                (#[trigger] after[b])@,
                (#[trigger] after[a])@,
            ) by {
                if b < place {
                    assert(after[a] == whole[a] && after[b] == whole[b]);
                } else if b == place {
                    assert(after[a] == whole[a]);
                } else {
                    assert(after[b] == whole[b - 1]);
                    if a < place {
                        assert(after[a] == whole[a]);
                    } else if a > place {
                        assert(after[a] == whole[a - 1]);
                    } else {
                        let next = whole[place as int]@;
                        let other = whole[b - 1]@;
                        order_is_total(value@, next);
                        order_is_total(other, value@);
                        order_is_total(other, next);
                        if comes_before(other, value@) {
                            order_is_transitive(other, value@, next);
                            if b - 1 > place {
                                assert(!comes_before(whole[b - 1]@, whole[place as int]@));
                            }
                        }
                    }
                }
            }
        }
        i += 1;
    }
    assert(ids@.take(i as int) =~= ids@);
    r
}

/// Animations in the order of their identifiers, each identifier once.
pub open spec fn on_shelf(animations: Seq<Animation>) -> bool {
    forall|i: int, j: int|
        0 <= i < j < animations.len() ==> comes_before(
            (#[trigger] animations[i]).id@,
            (#[trigger] animations[j]).id@,
        )
}

/// An animation with an identifier is there.
pub open spec fn has_animation(animations: Seq<Animation>, id: Seq<char>) -> bool {
    exists|i: int| 0 <= i < animations.len() && (#[trigger] animations[i]).id@ == id
}

/// Puts an animation in its place, unless there is one with its identifier.
/// Returns whether it did.
pub fn shelve(shelf: &mut Vec<Animation>, animation: Animation) -> (r: bool)
    requires
        on_shelf(old(shelf)@),
    ensures
        on_shelf(final(shelf)@),
        r == !has_animation(old(shelf)@, animation.id@),
        if r {
            exists|place: int|
                0 <= place <= old(shelf)@.len() && final(shelf)@ == #[trigger] old(shelf)@.insert(
                    place,
                    animation,
                )
        } else {
            final(shelf)@ == old(shelf)@
        },
{
    let ghost whole = shelf@;
    let mut place: usize = 0;
    while place < shelf.len() && before(shelf[place].id.as_str(), animation.id.as_str())
        invariant
            place <= shelf@.len(),
            shelf@ == whole,
            whole == old(shelf)@,
            forall|j: int|
                0 <= j < place ==> comes_before((#[trigger] whole[j]).id@, animation.id@),
        decreases shelf.len() - place,
    {
        place += 1;
    }
    let ghost id = animation.id@;
    proof {
        assert forall|j: int| 0 <= j < place implies (#[trigger] whole[j]).id@ != id by {
            order_is_total(whole[j].id@, id);
        }
    }
    if place < shelf.len() {
        if shelf[place].id.same(&animation.id) {
            return false;
        }
        proof {
            order_is_total(whole[place as int].id@, id);
            assert forall|j: int| place <= j < whole.len() implies comes_before(
                id,
                (#[trigger] whole[j]).id@,
            ) by {
                if j > place {
                    order_is_transitive(id, whole[place as int].id@, whole[j].id@);
                }
            }
        }
    }
    proof {
        assert forall|j: int| 0 <= j < whole.len() implies (#[trigger] whole[j]).id@ != id by {
            order_is_total(whole[j].id@, id);
        }
        let after = whole.insert(place as int, animation);
        assert forall|a: int, b: int| 0 <= a < b < after.len() implies comes_before(
            (#[trigger] after[a]).id@,
            (#[trigger] after[b]).id@,
        ) by {
            if b < place {
                assert(after[a] == whole[a] && after[b] == whole[b]);
            } else if b == place {
                assert(after[a] == whole[a]);
            } else {
                assert(after[b] == whole[b - 1]);
                if a < place {
                    assert(after[a] == whole[a]);
                } else if a > place {
                    assert(after[a] == whole[a - 1]);
                }
            }
        }
    }
    shelf.insert(place, animation);
    true
}

/// Why an animation from a file cannot be used, if it cannot: it breaks a rule, or
/// the file is not named after it.
pub open spec fn file_fault(stem: Seq<char>, animation: Animation) -> Option<Seq<char>> {
    match animation_fault(animation) {
        Some(fault) => Some(fault),
        None => if stem != animation.id@ {
            Some(
                "filename id "@ + debug_text(stem) + " does not match animation id "@
                    + animation.id@,
            )
        } else {
            None
        },
    }
}

/// Checks an animation from a file with a given name.
pub fn check_file(stem: &str, animation: &Animation) -> (r: Result<(), String>)
    ensures
        match r {
            Ok(_) => file_fault(stem@, *animation) is None,
            Err(message) => file_fault(stem@, *animation) == Some(message@),
        },
{
    if let Err(message) = animation.validate() {
        return Err(message);
    }
    let name = owned(stem);
    if !is_text(&name, animation.id.as_str()) {
        let mut text = owned("filename id ");
        let quoted_name = quoted(stem);
        text.append(quoted_name.as_str());
        text.append(" does not match animation id ");
        text.append(animation.id.as_str());
        return Err(text);
    }
    Ok(())
}

/// A text comes before another exactly if it is the beginning of it, or has a smaller
/// character at the first place where they differ.
pub proof fn order_is_by_the_first_difference(a: Seq<char>, b: Seq<char>, common: int)
    requires
        0 <= common <= a.len(),
        common <= b.len(),
        a.take(common) == b.take(common),
        common < a.len() && common < b.len() ==> a[common] != b[common],
    ensures
        comes_before(a, b) <==> common < b.len() && (common == a.len() || a[common] < b[common]),
    decreases common,
{
    if common > 0 {
        assert(a[0] == a.take(common)[0] && b[0] == b.take(common)[0]);
        let x = a.drop_first();
        let y = b.drop_first();
        assert(x.take(common - 1) =~= a.take(common).drop_first());
        assert(y.take(common - 1) =~= b.take(common).drop_first());
        order_is_by_the_first_difference(x, y, common - 1);
    }
}

/// A file can be used exactly if its animation breaks no rule and has the name of the file.
pub proof fn files_are_named_after_their_animation(stem: Seq<char>, animation: Animation)
    ensures
        file_fault(stem, animation) is None <==> animation_fault(animation) is None && stem
            == animation.id@,
{
}

} // verus!
