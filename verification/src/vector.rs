//! A growable list of integers with the operations of a small vector type.
use vstd::prelude::*;
use crate::convert::push_char;
use crate::text::{i32_text, signed_decimal};

verus! {

/// A dynamic vector holding `i32` values.
#[derive(Debug)]
pub struct Vector {
    /// The elements, first to last.
    pub container: Vec<i32>,
}

/// The number of elements `v` can hold without growing.
/// Calls `Vec::capacity`; the documentation guarantees it is never below the length.
#[verifier::external_body]
fn capacity_of(v: &Vec<i32>) -> (r: usize)
    ensures
        r >= v@.len(),
{
    v.capacity()
}

/// Makes room in `v` for at least `additional` more elements.
/// Calls `Vec::reserve_exact`, which changes the capacity only; it panics when
/// the new capacity exceeds `isize::MAX` bytes, which the bound rules out.
#[verifier::external_body]
fn reserve_exact_in(v: &mut Vec<i32>, additional: usize)
    requires
        old(v)@.len() + additional <= isize::MAX / 4,
    ensures
        final(v)@ == old(v)@,
{
    v.reserve_exact(additional);
}

/// Gives back unused room of `v`.
/// Calls `Vec::shrink_to_fit`, which changes the capacity only.
#[verifier::external_body]
fn shrink_to_fit_in(v: &mut Vec<i32>)
    ensures
        final(v)@ == old(v)@,
{
    v.shrink_to_fit();
}

/// The position of the first `key` in `s`, or -1.
pub open spec fn index_of(s: Seq<i32>, key: i32) -> int
    decreases s.len(),
{
    if s.len() == 0 {
        -1
    } else if s[0] == key {
        0
    } else {
        let p = index_of(s.drop_first(), key);
        if p < 0 {
            -1
        } else {
            p + 1
        }
    }
}

/// `index_of` is the first position holding `key`.
proof fn lemma_index_of(s: Seq<i32>, key: i32, k: int)
    requires
        0 <= k <= s.len(),
        forall|j: int| 0 <= j < k ==> s[j] != key,
    ensures
        k < s.len() && s[k] == key ==> index_of(s, key) == k,
        k == s.len() ==> index_of(s, key) == -1,
    decreases k,
{
    if k > 0 {
        assert forall|j: int| 0 <= j < k - 1 implies s.drop_first()[j] != key by {
            assert(s.drop_first()[j] == s[j + 1]);
        }
        lemma_index_of(s.drop_first(), key, k - 1);
    }
}

/// The elements `s` separated by `, `.
pub open spec fn items_text(s: Seq<i32>) -> Seq<char>
    decreases s.len(),
{
    if s.len() == 0 {
        Seq::empty()
    } else if s.len() == 1 {
        signed_decimal(s[0] as int)
    } else {
        items_text(s.drop_last()) + seq![',', ' '] + signed_decimal(s.last() as int)
    }
}

impl Vector {
    /// The vector as `print` shows it: `(a, b, c)`.
    pub fn text(&self) -> (r: String)
        ensures
            r@ == seq!['('] + items_text(self.container@) + seq![')'],
    {
        let mut r = String::new();
        push_char(&mut r, '(');
        let n = self.container.len();
        let mut i: usize = 0;
        while i < n
            invariant
                n == self.container@.len(),
                i <= n,
                r@ == seq!['('] + items_text(self.container@.take(i as int)),
            decreases n - i,
        {
            if i > 0 {
                push_char(&mut r, ',');
                push_char(&mut r, ' ');
            }
            let digits = i32_text(self.container[i]);
            let ghost mid = r@;
            let mut k: usize = 0;
            while k < digits.len()
                invariant
                    k <= digits@.len(),
                    r@ == mid + digits@.take(k as int),
                decreases digits@.len() - k,
            {
                push_char(&mut r, digits[k]);
                assert(digits@.take(k + 1) =~= digits@.take(k as int).push(digits@[k as int]));
                k = k + 1;
            }
            proof {
                assert(digits@.take(digits@.len() as int) =~= digits@);
                let s = self.container@.take(i + 1);
                assert(s.drop_last() =~= self.container@.take(i as int));
                assert(s.last() == self.container@[i as int]);
                if i > 0 {
                    assert(r@ =~= seq!['('] + (items_text(s.drop_last()) + seq![',', ' '] + signed_decimal(s.last() as int)));
                } else {
                    assert(items_text(s) == signed_decimal(s[0] as int));
                    assert(r@ =~= seq!['('] + items_text(s));
                }
            }
            i = i + 1;
        }
        assert(self.container@.take(n as int) =~= self.container@);
        push_char(&mut r, ')');
        r
    }

    /// Creates a new empty vector.
    pub fn new() -> (v: Self)
        ensures
            v.container@ == Seq::<i32>::empty(),
    {
        Vector { container: Vec::new() }
    }

    /// Makes room for `new_capacity` elements in all. Returns `false`, and
    /// changes nothing, when that is fewer than the elements held.
    pub fn resize(&mut self, new_capacity: usize) -> (r: bool)
        requires
            new_capacity <= isize::MAX / 4,
        ensures
            r == (new_capacity >= old(self).container@.len()),
            final(self).container@ == old(self).container@,
    {
        if new_capacity < self.container.len() {
            return false;
        }
        let cap = capacity_of(&self.container);
        if new_capacity > cap {
            let len = self.container.len();
            reserve_exact_in(&mut self.container, new_capacity - len);
        }
        true
    }

    /// Adds an element to the back of the vector.
    pub fn push_back(&mut self, value: i32) -> (r: bool)
        ensures
            r,
            final(self).container@ == old(self).container@.push(value),
    {
        self.container.push(value);
        true
    }

    /// Returns the last element in the vector, if any.
    pub fn back(&self) -> (r: Option<&i32>)
        ensures
            r is None <==> self.container@.len() == 0,
            r matches Some(x) ==> *x == self.container@.last(),
    {
        let len = self.container.len();
        if len == 0 {
            None
        } else {
            Some(&self.container[len - 1])
        }
    }

    /// Removes the last element, if any, and gives back unused room once a
    /// quarter or less of it is in use.
    pub fn pop_back(&mut self)
        ensures
            final(self).container@ == (if old(self).container@.len() > 0 {
                old(self).container@.drop_last()
            } else {
                old(self).container@
            }),
    {
        self.container.pop();
        let cap = capacity_of(&self.container);
        if self.container.len() <= cap / 4 {
            shrink_to_fit_in(&mut self.container);
        }
    }

    /// Removes the first element equal to `key`. Returns whether one was found.
    pub fn erase(&mut self, key: i32) -> (r: bool)
        ensures
            r == (index_of(old(self).container@, key) >= 0),
            final(self).container@ == (if r {
                old(self).container@.remove(index_of(old(self).container@, key))
            } else {
                old(self).container@
            }),
    {
        let mut i: usize = 0;
        while i < self.container.len()
            invariant
                self.container@ == old(self).container@,
                i <= self.container@.len(),
                forall|j: int| 0 <= j < i ==> self.container@[j] != key,
            decreases self.container@.len() - i,
        {
            if self.container[i] == key {
                proof {
                    lemma_index_of(self.container@, key, i as int);
                }
                self.container.remove(i);
                return true;
            }
            i = i + 1;
        }
        proof {
            lemma_index_of(self.container@, key, i as int);
        }
        false
    }
}

} // verus!
