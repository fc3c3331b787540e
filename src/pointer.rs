//! Resolving a JSON Pointer against a document, for reading and for writing.

use crate::json::{array_of, map_get, map_get_mut, object_of};
use crate::token::{array_index, chars_of, parse_index, push_char, unescape, unescape_token};
use serde_json::Value;
use vstd::prelude::*;

verus! {

/// The raw segments of `s`, the text of a pointer after its leading `/`: the
/// pieces between the `/` characters, in order. An empty piece is a segment too.
pub open spec fn segments(s: Seq<char>) -> Seq<Seq<char>>
    decreases s.len(),
{
    if s.len() == 0 {
        seq![Seq::empty()]
    } else {
        let prev = segments(s.drop_last());
        if s.last() == '/' {
            prev.push(Seq::empty())
        } else {
            prev.update(prev.len() - 1, prev.last().push(s.last()))
        }
    }
}

/// The child of `v` that the decoded segment `key` names: the entry under
/// `key` in an object, the item at index `key` in an array, nothing else.
pub open spec fn step(v: Value, key: Seq<char>) -> Option<Value> {
    match object_of(v) {
        Some(entries) => if entries.contains_key(key) {
            Some(entries[key])
        } else {
            None
        },
        None => match array_of(v) {
            Some(items) => match array_index(key) {
                Some(i) => if i < items.len() {
                    Some(items[i as int])
                } else {
                    None
                },
                None => None,
            },
            None => None,
        },
    }
}

/// The node reached from `v` by following the raw segments `segs` in order.
pub open spec fn walk(v: Value, segs: Seq<Seq<char>>) -> Option<Value>
    decreases segs.len(),
{
    if segs.len() == 0 {
        Some(v)
    } else {
        match unescape(segs[0]) {
            Some(key) => match step(v, key) {
                Some(child) => walk(child, segs.drop_first()),
                None => None,
            },
            None => None,
        }
    }
}

/// The node of `doc` that `pointer` addresses: the whole document for the
/// empty pointer, nothing for a pointer that does not start with `/`.
pub open spec fn resolve(doc: Value, pointer: Seq<char>) -> Option<Value> {
    if pointer.len() == 0 {
        Some(doc)
    } else if pointer[0] != '/' {
        None
    } else {
        walk(doc, segments(pointer.drop_first()))
    }
}

proof fn lemma_walk_skip(v: Value, segs: Seq<Seq<char>>, j: int)
    requires
        0 <= j < segs.len(),
    ensures
        walk(v, segs.skip(j)) == match unescape(segs[j]) {
            Some(key) => match step(v, key) {
                Some(child) => walk(child, segs.skip(j + 1)),
                None => None,
            },
            None => None,
        },
{
    assert(segs.skip(j)[0] == segs[j]);
    assert(segs.skip(j).drop_first() =~= segs.skip(j + 1));
}

/// Whether `after` is `before` with the node that the raw segments `segs`
/// reach replaced by `node`, and nothing else changed: each object on the way
/// keeps its other entries, each array on the way its other items and its
/// length.
pub open spec fn replaced_at(before: Value, after: Value, segs: Seq<Seq<char>>, node: Value) -> bool
    decreases segs.len(),
{
    if segs.len() == 0 {
        after == node
    } else {
        match unescape(segs[0]) {
            Some(key) => match object_of(before) {
                Some(entries) => {
                    &&& entries.contains_key(key)
                    &&& match object_of(after) {
                        Some(now) => {
                            &&& now == entries.insert(key, now[key])
                            &&& replaced_at(entries[key], now[key], segs.drop_first(), node)
                        },
                        None => false,
                    }
                },
                None => match (array_of(before), array_index(key)) {
                    (Some(items), Some(i)) => {
                        &&& i < items.len()
                        &&& object_of(after) is None
                        &&& match array_of(after) {
                            Some(now) => {
                                &&& now == items.update(i as int, now[i as int])
                                &&& replaced_at(items[i as int], now[i as int], segs.drop_first(), node)
                            },
                            None => false,
                        }
                    },
                    _ => false,
                },
            },
            None => false,
        }
    }
}

proof fn lemma_replaced_at_skip(before: Value, after: Value, segs: Seq<Seq<char>>, j: int, node: Value)
    requires
        0 <= j < segs.len(),
    ensures
        replaced_at(before, after, segs.skip(j), node) == match unescape(segs[j]) {
            Some(key) => match object_of(before) {
                Some(entries) => {
                    &&& entries.contains_key(key)
                    &&& match object_of(after) {
                        Some(now) => {
                            &&& now == entries.insert(key, now[key])
                            &&& replaced_at(entries[key], now[key], segs.skip(j + 1), node)
                        },
                        None => false,
                    }
                },
                None => match (array_of(before), array_index(key)) {
                    (Some(items), Some(i)) => {
                        &&& i < items.len()
                        &&& object_of(after) is None
                        &&& match array_of(after) {
                            Some(now) => {
                                &&& now == items.update(i as int, now[i as int])
                                &&& replaced_at(items[i as int], now[i as int], segs.skip(j + 1), node)
                            },
                            None => false,
                        }
                    },
                    _ => false,
                },
            },
            None => false,
        },
{
    assert(segs.skip(j)[0] == segs[j]);
    assert(segs.skip(j).drop_first() =~= segs.skip(j + 1));
}

/// The raw segments of a pointer that starts with `/`.
fn split_segments(pointer: &str) -> (r: Vec<String>)
    requires
        pointer@.len() > 0,
    ensures
        r@.len() == segments(pointer@.drop_first()).len(),
        forall|k: int| 0 <= k < r@.len() ==> r@[k]@ == segments(pointer@.drop_first())[k],
{
    let cs = chars_of(pointer);
    let n = cs.len();
    let mut done: Vec<String> = Vec::new();
    let mut cur = String::new();
    let mut i: usize = 1;
    assert(pointer@.subrange(1, 1) =~= Seq::<char>::empty());
    while i < n
        invariant
            cs@ == pointer@,
            n == pointer@.len(),
            1 <= i <= n,
            done@.len() + 1 == segments(pointer@.subrange(1, i as int)).len(),
            forall|k: int|
                0 <= k < done@.len() ==> done@[k]@ == segments(pointer@.subrange(1, i as int))[k],
            cur@ == segments(pointer@.subrange(1, i as int)).last(),
        decreases n - i,
    {
        let c = cs[i];
        let ghost before = pointer@.subrange(1, i as int);
        let ghost after = pointer@.subrange(1, i + 1);
        assert(after.drop_last() =~= before);
        assert(after.last() == c);
        if c == '/' {
            done.push(cur);
            cur = String::new();
        } else {
            push_char(&mut cur, c);
        }
        i = i + 1;
    }
    assert(pointer@.subrange(1, n as int) =~= pointer@.drop_first());
    done.push(cur);
    done
}

/// Looks up the node of `value` that `pointer` addresses (RFC 6901).
///
/// The empty pointer addresses the whole document; any other pointer starts
/// with `/` and lists segments separated by `/`, in which `~1` stands for `/`
/// and `~0` for `~`. Returns `None` when the pointer is malformed or names no
/// node.
pub fn ptr<'a>(value: &'a Value, pointer: &str) -> (r: Option<&'a Value>)
    ensures
        match r {
            Some(node) => resolve(*value, pointer@) == Some(*node),
            None => resolve(*value, pointer@) is None,
        },
{
    if pointer.is_empty() {
        return Some(value);
    }
    if pointer.get_char(0) != '/' {
        return None;
    }
    let segs = split_segments(pointer);
    let ghost all = segments(pointer@.drop_first());
    let mut current = value;
    let mut j: usize = 0;
    assert(all.skip(0) =~= all);
    while j < segs.len()
        invariant
            segs@.len() == all.len(),
            forall|k: int| 0 <= k < segs@.len() ==> segs@[k]@ == all[k],
            j <= segs@.len(),
            resolve(*value, pointer@) == walk(*current, all.skip(j as int)),
        decreases segs@.len() - j,
    {
        proof {
            lemma_walk_skip(*current, all, j as int);
        }
        let key = match unescape_token(segs[j].as_str()) {
            Some(k) => k,
            None => return None,
        };
        if let Some(map) = current.as_object() {
            match map_get(map, &key) {
                Some(child) => {
                    current = child;
                },
                None => return None,
            }
        } else if let Some(items) = current.as_array() {
            let idx = match parse_index(key.as_str()) {
                Some(i) => i,
                None => return None,
            };
            if idx < items.len() {
                current = &items[idx];
            } else {
                return None;
            }
        } else {
            return None;
        }
        j = j + 1;
    }
    assert(all.skip(j as int) =~= Seq::<Seq<char>>::empty());
    Some(current)
}

/// Looks up the node of `value` that `pointer` addresses, as `ptr` does, and
/// lends it for writing.
///
/// On success the returned reference holds the addressed node, and once it is
/// released the document is the old one with that node replaced by whatever
/// was written through it, so that the same pointer now addresses what was
/// written. On failure the document is left as it was.
pub fn ptr_mut<'a>(value: &'a mut Value, pointer: &str) -> (r: Option<&'a mut Value>)
    ensures
        match r {
            Some(node) => {
                &&& resolve(*old(value), pointer@) == Some(*node)
                &&& resolve(*final(value), pointer@) == Some(*final(node))
                &&& pointer@.len() == 0 ==> *final(value) == *final(node)
                &&& pointer@.len() > 0 ==> replaced_at(
                    *old(value),
                    *final(value),
                    segments(pointer@.drop_first()),
                    *final(node),
                )
            },
            None => {
                &&& resolve(*old(value), pointer@) is None
                &&& *final(value) == *old(value)
            },
        },
{
    // Decide first on a shared borrow, so that a pointer that names nothing
    // never lends the document out for writing.
    if ptr(value, pointer).is_none() {
        return None;
    }
    if pointer.is_empty() {
        return Some(value);
    }
    let segs = split_segments(pointer);
    let ghost all = segments(pointer@.drop_first());
    let ghost doc = *value;
    let mut current = value;
    let mut j: usize = 0;
    assert(all.skip(0) =~= all);
    while j < segs.len()
        invariant
            segs@.len() == all.len(),
            forall|k: int| 0 <= k < segs@.len() ==> segs@[k]@ == all[k],
            j <= segs@.len(),
            resolve(doc, pointer@) == walk(*current, all.skip(j as int)),
            walk(*current, all.skip(j as int)) is Some,
            walk(*final(value), all) == walk(*final(current), all.skip(j as int)),
            forall|n: Value|
                #[trigger] replaced_at(*current, *final(current), all.skip(j as int), n)
                    ==> replaced_at(doc, *final(value), all, n),
        decreases segs@.len() - j,
    {
        proof {
            lemma_walk_skip(*current, all, j as int);
            lemma_walk_skip(*final(current), all, j as int);
        }
        let ghost here = *current;
        let ghost here_final = *final(current);
        let key = match unescape_token(segs[j].as_str()) {
            Some(k) => k,
            None => return None,
        };
        let is_object = current.as_object().is_some();
        if is_object {
            match current.as_object_mut() {
                Some(map) => match map_get_mut(map, &key) {
                    Some(child) => {
                        current = child;
                        proof {
                            assert forall|n: Value| #[trigger]
                                replaced_at(*current, *final(current), all.skip(j + 1), n)
                                    implies replaced_at(doc, *final(value), all, n) by {
                                lemma_replaced_at_skip(here, here_final, all, j as int, n);
                            }
                        }
                    },
                    None => return None,
                },
                None => return None,
            }
        } else {
            match current.as_array_mut() {
                Some(items) => {
                    let idx = match parse_index(key.as_str()) {
                        Some(i) => i,
                        None => return None,
                    };
                    if idx < items.len() {
                        current = &mut items[idx];
                        proof {
                            assert forall|n: Value| #[trigger]
                                replaced_at(*current, *final(current), all.skip(j + 1), n)
                                    implies replaced_at(doc, *final(value), all, n) by {
                                lemma_replaced_at_skip(here, here_final, all, j as int, n);
                            }
                        }
                    } else {
                        return None;
                    }
                },
                None => return None,
            }
        }
        j = j + 1;
    }
    assert(all.skip(j as int) =~= Seq::<Seq<char>>::empty());
    assert(replaced_at(*current, *final(current), all.skip(j as int), *final(current)));
    Some(current)
}

/// The empty pointer addresses the whole document, whatever it holds.
pub proof fn lemma_empty_pointer_is_root(doc: Value)
    ensures
        resolve(doc, Seq::empty()) == Some(doc),
{
}

/// A non-empty pointer that does not start with `/` addresses nothing, in any
/// document.
pub proof fn lemma_missing_leading_slash(doc: Value, pointer: Seq<char>)
    requires
        pointer.len() > 0,
        pointer[0] != '/',
    ensures
        resolve(doc, pointer) is None,
{
}

/// The pointer `/~`, whose only segment ends in a lone `~`, addresses nothing,
/// in any document.
pub proof fn lemma_trailing_tilde_rejected(doc: Value)
    ensures
        resolve(doc, seq!['/', '~']) is None,
{
    let p = seq!['/', '~'];
    assert(p.drop_first() =~= seq!['~']);
    let e = Seq::<char>::empty();
    assert(seq!['~'].drop_last() =~= e);
    assert(segments(e) == seq![e]);
    assert(e.push('~') =~= seq!['~']);
    assert(seq![e].update(0, e.push('~')) =~= seq![seq!['~']]);
    assert(segments(seq!['~']) =~= seq![seq!['~']]);
    assert(unescape(seq!['~']) is None);
}

/// Resolving the same pointer twice in the same document gives the same
/// node, or fails both times: two results that each meet the contract of
/// `ptr` are equal.
pub proof fn lemma_resolution_is_deterministic(
    doc: Value,
    pointer: Seq<char>,
    first: Option<Value>,
    second: Option<Value>,
)
    requires
        match first {
            Some(node) => resolve(doc, pointer) == Some(node),
            None => resolve(doc, pointer) is None,
        },
        match second {
            Some(node) => resolve(doc, pointer) == Some(node),
            None => resolve(doc, pointer) is None,
        },
    ensures
        first == second,
{
}

proof fn lemma_walk_after_replace(before: Value, after: Value, segs: Seq<Seq<char>>, node: Value)
    requires
        replaced_at(before, after, segs, node),
    ensures
        walk(after, segs) == Some(node),
    decreases segs.len(),
{
    if segs.len() > 0 {
        let key = unescape(segs[0]).unwrap();
        match object_of(before) {
            Some(entries) => {
                let now = object_of(after).unwrap();
                assert(now.contains_key(key));
                lemma_walk_after_replace(entries[key], now[key], segs.drop_first(), node);
            },
            None => {
                let items = array_of(before).unwrap();
                let i = array_index(key).unwrap();
                let now = array_of(after).unwrap();
                assert(now.len() == items.len());
                lemma_walk_after_replace(
                    items[i as int],
                    now[i as int],
                    segs.drop_first(),
                    node,
                );
            },
        }
    }
}

/// A node written through a pointer is what the same pointer then reads:
/// when `after` is `before` with the node at `pointer` replaced by `node`, as
/// `ptr_mut` leaves a document, `pointer` addresses `node` in `after`.
pub proof fn lemma_read_after_write(before: Value, after: Value, pointer: Seq<char>, node: Value)
    requires
        resolve(before, pointer) is Some,
        pointer.len() == 0 ==> after == node,
        pointer.len() > 0 ==> replaced_at(before, after, segments(pointer.drop_first()), node),
    ensures
        resolve(after, pointer) == Some(node),
{
    if pointer.len() > 0 {
        lemma_walk_after_replace(before, after, segments(pointer.drop_first()), node);
    }
}

} // verus!
