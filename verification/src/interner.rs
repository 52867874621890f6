//! Interning: each element gets a dense index when it is seen first, and
//! can be found again by the index, and the index by the element.

use std::collections::HashMap;
use vstd::prelude::*;
use crate::atoms::{Atom, Point, PointType};

verus! {

broadcast use vstd::std_specs::hash::group_hash_axioms;

/// An element that a table can intern.
pub trait Internable: Sized {
    /// A number by which the element is looked up. Elements that are the
    /// same have the same code; others mostly have another one.
    spec fn spec_code(&self) -> u64;

    /// The code of this element.
    fn code(&self) -> (c: u64)
        ensures
            c == self.spec_code(),
    ;

    /// Whether the two elements are the same.
    fn same_as(&self, other: &Self) -> (r: bool)
        ensures
            r == (*self == *other),
    ;

    /// A copy of this element.
    fn duplicate(&self) -> (copy: Self)
        ensures
            copy == *self,
    ;
}

impl Internable for Point {
    open spec fn spec_code(&self) -> u64 {
        let kind: u64 = match self.typ {
            PointType::Start => 0,
            PointType::Mid => 1,
        };
        ((self.location.block as u64 % 0x1_0000_0000) * 0x8000_0000
            + self.location.statement_index as u64 % 0x4000_0000 * 2 + kind) as u64
    }

    fn code(&self) -> (c: u64) {
        let kind: u64 = match self.typ {
            PointType::Start => 0,
            PointType::Mid => 1,
        };
        let block = self.location.block as u64 % 0x1_0000_0000;
        let statement = self.location.statement_index as u64 % 0x4000_0000;
        block * 0x8000_0000 + statement * 2 + kind
    }

    fn same_as(&self, other: &Self) -> (r: bool) {
        self.location.block == other.location.block && self.location.statement_index
            == other.location.statement_index && self.typ == other.typ
    }

    fn duplicate(&self) -> (copy: Self) {
        *self
    }
}

/// A table that stores a mapping between interned elements of type
/// `SourceType` and their indices.
pub struct InternerTable<SourceType, IndexType> {
    /// For looking up from index type to source type.
    pub interned_elements: Vec<SourceType>,
    /// For looking up from source type into index type: under the code of
    /// an element stand the indices of the elements with this code.
    pub index_elements: HashMap<u64, Vec<IndexType>>,
}

impl<SourceType, IndexType> View for InternerTable<SourceType, IndexType> {
    type V = Seq<SourceType>;

    open spec fn view(&self) -> Seq<SourceType> {
        self.interned_elements@
    }
}

impl<SourceType: Internable, IndexType: Atom> InternerTable<SourceType, IndexType> {
    /// The invariant of the table: no element is interned twice, and each
    /// element is found under its code.
    pub open spec fn wf(&self) -> bool {
        let elements = self.interned_elements@;
        let buckets = self.index_elements@;
        &&& elements.no_duplicates()
        &&& forall|i: int|
            #![trigger elements[i]]
            0 <= i < elements.len() ==> buckets.contains_key(elements[i].spec_code())
                && exists|k: int|
                0 <= k < buckets[elements[i].spec_code()]@.len()
                    && (#[trigger] buckets[elements[i].spec_code()]@[k]).spec_index() == i
        &&& forall|c: u64, k: int|
            #![trigger buckets[c]@[k]]
            buckets.contains_key(c) && 0 <= k < buckets[c]@.len() ==> buckets[c]@[k].spec_index()
                < elements.len() && elements[buckets[c]@[k].spec_index() as int].spec_code() == c
    }

    /// A table without elements.
    pub fn new() -> (table: Self)
        ensures
            table.wf(),
            table@.len() == 0,
    {
        Self { interned_elements: Vec::new(), index_elements: HashMap::new() }
    }

    /// The place of `element` in the bucket of its code, if it is interned.
    fn lookup(&self, element: &SourceType) -> (found: Option<IndexType>)
        requires
            self.wf(),
        ensures
            found matches Some(index) ==> index.spec_index() < self@.len() && self@[index.spec_index() as int]
                == *element,
            found is None ==> !self@.contains(*element),
    {
        let code = element.code();
        match self.index_elements.get(&code) {
            Some(bucket) => {
                let mut k: usize = 0;
                while k < bucket.len()
                    invariant
                        k <= bucket.len(),
                        self.wf(),
                        self.index_elements@.contains_key(code),
                        *bucket == self.index_elements@[code],
                        forall|j: int|
                            0 <= j < k ==> self@[(#[trigger] bucket@[j]).spec_index() as int]
                                != *element,
                    decreases bucket.len() - k,
                {
                    let index = bucket[k];
                    let place = index.index();
                    if self.interned_elements[place].same_as(element) {
                        return Some(index);
                    }
                    k += 1;
                }
                None
            },
            None => {
                None
            },
        }
    }

    /// The index of `element`: the one it has, or, where it is seen for the
    /// first time, the next free one.
    pub fn get_or_create_index(&mut self, element: SourceType) -> (index: IndexType)
        requires
            old(self).wf(),
        ensures
            final(self).wf(),
            old(self)@.contains(element) ==> final(self)@ == old(self)@,
            !old(self)@.contains(element) ==> final(self)@ == old(self)@.push(element),
            index.spec_index() < final(self)@.len(),
            final(self)@[index.spec_index() as int] == element,
    {
        if let Some(interned) = self.lookup(&element) {
            return interned;
        }
        let index = IndexType::from_index(self.interned_elements.len());
        let code = element.code();
        let mut bucket = match self.index_elements.remove(&code) {
            Some(bucket) => bucket,
            None => Vec::new(),
        };
        let ghost old_bucket = bucket@;
        let ghost old_buckets = old(self).index_elements@;
        let ghost old_elements = old(self)@;
        bucket.push(index);
        self.index_elements.insert(code, bucket);
        self.interned_elements.push(element.duplicate());
        proof {
            let elements = self.interned_elements@;
            let buckets = self.index_elements@;
            let n = old_elements.len() as int;
            assert forall|i: int| #![trigger elements[i]] 0 <= i < elements.len() implies buckets.contains_key(
                elements[i].spec_code(),
            ) && exists|k: int|
                0 <= k < buckets[elements[i].spec_code()]@.len()
                    && (#[trigger] buckets[elements[i].spec_code()]@[k]).spec_index() == i by {
                let c = elements[i].spec_code();
                if i == n {
                    assert(buckets[c]@[old_bucket.len() as int].spec_index() == i);
                } else {
                    let k = choose|k: int|
                        0 <= k < old_buckets[c]@.len() && (#[trigger] old_buckets[c]@[k]).spec_index()
                            == i;
                    if c == code {
                        assert(buckets[c]@[k].spec_index() == i);
                    } else {
                        assert(buckets[c]@[k].spec_index() == i);
                    }
                }
            }
        }
        index
    }

    /// The index of `element`, if it is interned.
    pub fn find_index(&self, element: &SourceType) -> (index: Option<IndexType>)
        requires
            self.wf(),
        ensures
            index matches Some(i) ==> i.spec_index() < self@.len() && self@[i.spec_index() as int]
                == *element,
            index is None ==> !self@.contains(*element),
    {
        self.lookup(element)
    }

    /// The index of `element`, which is interned.
    pub fn get_index(&self, element: &SourceType) -> (index: IndexType)
        requires
            self.wf(),
            self@.contains(*element),
        ensures
            index.spec_index() < self@.len(),
            self@[index.spec_index() as int] == *element,
    {
        self.lookup(element).unwrap()
    }

    /// The element with the index `index`, which is in use.
    pub fn get_element(&self, index: IndexType) -> (element: &SourceType)
        requires
            index.spec_index() < self@.len(),
        ensures
            *element == self@[index.spec_index() as int],
    {
        let index: usize = index.index();
        &self.interned_elements[index]
    }
}

} // verus!
