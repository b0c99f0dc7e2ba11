//! A vector of at most three elements: the completed left siblings of the
//! active child of a frontier node, in left-to-right order.
use vstd::prelude::*;

verus! {

/// A vector capable of storing at most 3 elements.
pub struct Three<T> {
    elems: Vec<T>,
}

/// All the possible cases of the elements in a [`Three`], by reference.
pub enum Elems<'a, T> {
    /// Zero elements.
    _0([&'a T; 0]),
    /// One element.
    _1([&'a T; 1]),
    /// Two elements.
    _2([&'a T; 2]),
    /// Three elements.
    _3([&'a T; 3]),
}

/// All the possible cases of the elements in a [`Three`], by mutable reference.
pub enum ElemsMut<'a, T> {
    /// Zero elements.
    _0([&'a mut T; 0]),
    /// One element.
    _1([&'a mut T; 1]),
    /// Two elements.
    _2([&'a mut T; 2]),
    /// Three elements.
    _3([&'a mut T; 3]),
}

/// All the possible cases of the elements in a [`Three`], by value.
pub enum IntoElems<T> {
    /// Zero elements.
    _0([T; 0]),
    /// One element.
    _1([T; 1]),
    /// Two elements.
    _2([T; 2]),
    /// Three elements.
    _3([T; 3]),
}

impl<T> View for Three<T> {
    type V = Seq<T>;

    closed spec fn view(&self) -> Seq<T> {
        self.elems@
    }
}

impl<'a, T> Elems<'a, T> {
    /// The elements, in order.
    pub open spec fn seq(&self) -> Seq<T> {
        match self {
            Elems::_0(_) => seq![],
            Elems::_1(a) => seq![*a[0]],
            Elems::_2(a) => seq![*a[0], *a[1]],
            Elems::_3(a) => seq![*a[0], *a[1], *a[2]],
        }
    }
}

impl<T> IntoElems<T> {
    /// The elements, in order.
    pub open spec fn seq(&self) -> Seq<T> {
        match self {
            IntoElems::_0(_) => seq![],
            IntoElems::_1(a) => a@,
            IntoElems::_2(a) => a@,
            IntoElems::_3(a) => a@,
        }
    }
}

impl<T> Three<T> {
    /// At most three elements are held.
    pub open spec fn wf(&self) -> bool {
        self@.len() <= 3
    }

    /// Create a new `Three` with no elements, but room for four, so that an
    /// overfilling [`Self::push`] does not reallocate.
    pub fn new() -> (r: Self)
        ensures
            r@ == Seq::<T>::empty(),
            r.wf(),
    {
        Three { elems: Vec::with_capacity(4) }
    }

    /// Push a new item into this [`Three`], or return exactly four items
    /// (including the pushed item) if the [`Three`] is already full.
    pub fn push(self, item: T) -> (r: Result<Self, [T; 4]>)
        requires
            self.wf(),
        ensures
            self@.len() < 3 ==> (r matches Ok(t) && t@ == self@.push(item) && t.wf()),
            self@.len() == 3 ==> (r matches Err(a) && a@ == self@.push(item)),
    {
        let mut elems = self.elems;
        if elems.len() < 3 {
            elems.push(item);
            Ok(Three { elems })
        } else {
            let c = elems.pop().unwrap();
            let b = elems.pop().unwrap();
            let a = elems.pop().unwrap();
            let r = [a, b, c, item];
            assert(r@ =~= self@.push(item));
            Err(r)
        }
    }

    /// Get an enumeration of the elements of this [`Three`] by reference.
    pub fn elems(&self) -> (r: Elems<'_, T>)
        requires
            self.wf(),
        ensures
            r.seq() == self@,
    {
        let n = self.elems.len();
        if n == 0 {
            let r = Elems::_0([]);
            assert(r.seq() =~= self@);
            r
        } else if n == 1 {
            let r = Elems::_1([&self.elems[0]]);
            assert(r.seq() =~= self@);
            r
        } else if n == 2 {
            let r = Elems::_2([&self.elems[0], &self.elems[1]]);
            assert(r.seq() =~= self@);
            r
        } else {
            let r = Elems::_3([&self.elems[0], &self.elems[1], &self.elems[2]]);
            assert(r.seq() =~= self@);
            r
        }
    }

    /// Get an enumeration of the elements of this [`Three`] by mutable reference.
    pub fn elems_mut(&mut self) -> (r: ElemsMut<'_, T>)
        requires
            old(self).wf(),
        ensures
            final(self).wf(),
            r matches ElemsMut::_0(_) ==> old(self)@.len() == 0 && final(self)@.len() == 0,
            r matches ElemsMut::_1(a) ==> old(self)@ == seq![*a[0]] && final(self)@ == seq![*final(a[0])],
            r matches ElemsMut::_2(a) ==> old(self)@ == seq![*a[0], *a[1]] && final(self)@ == seq![
                *final(a[0]),
                *final(a[1]),
            ],
            r matches ElemsMut::_3(a) ==> old(self)@ == seq![*a[0], *a[1], *a[2]] && final(self)@ == seq![
                *final(a[0]),
                *final(a[1]),
                *final(a[2]),
            ],
    {
        let n = self.elems.len();
        let s = self.elems.as_mut_slice();
        if n == 0 {
            ElemsMut::_0([])
        } else if n == 1 {
            ElemsMut::_1([s.first_mut().unwrap()])
        } else if n == 2 {
            let (x, y) = s.split_at_mut(1);
            ElemsMut::_2([x.first_mut().unwrap(), y.first_mut().unwrap()])
        } else {
            let (x, rest) = s.split_at_mut(1);
            let (y, z) = rest.split_at_mut(1);
            ElemsMut::_3([x.first_mut().unwrap(), y.first_mut().unwrap(), z.first_mut().unwrap()])
        }
    }

    /// Convert this [`Three`] into an enumeration of its elements.
    pub fn into_elems(self) -> (r: IntoElems<T>)
        requires
            self.wf(),
        ensures
            r.seq() == self@,
    {
        let ghost s = self@;
        let mut elems = self.elems;
        let n = elems.len();
        if n == 0 {
            let r = IntoElems::_0([]);
            assert(r.seq() =~= s);
            r
        } else if n == 1 {
            let a = elems.pop().unwrap();
            let r = IntoElems::_1([a]);
            assert(r.seq() =~= s);
            r
        } else if n == 2 {
            let b = elems.pop().unwrap();
            let a = elems.pop().unwrap();
            let r = IntoElems::_2([a, b]);
            assert(r.seq() =~= s);
            r
        } else {
            let c = elems.pop().unwrap();
            let b = elems.pop().unwrap();
            let a = elems.pop().unwrap();
            let r = IntoElems::_3([a, b, c]);
            assert(r.seq() =~= s);
            r
        }
    }
}

impl<T> Default for Three<T> {
    fn default() -> (r: Self)
        ensures
            r@ == Seq::<T>::empty(),
            r.wf(),
    {
        Self::new()
    }
}

} // verus!
