use vstd::prelude::*;

verus! {

/// Append-only store that hands out dense, never-reused indices.
pub struct Arena<T> {
    items: Vec<T>,
}

impl<T> View for Arena<T> {
    type V = Seq<T>;

    closed spec fn view(&self) -> Seq<T> {
        self.items@
    }
}

impl<T> Arena<T> {
    pub fn new() -> (r: Self)
        ensures
            r@ == Seq::<T>::empty(),
    {
        Arena { items: Vec::new() }
    }

    /// Stores `item` and returns its index.
    pub fn allocate(&mut self, item: T) -> (id: usize)
        ensures
            id == old(self)@.len(),
            final(self)@ == old(self)@.push(item),
    {
        self.items.push(item);
        self.items.len() - 1
    }

    /// Stores the item that `f` builds from the index it will receive.
    pub fn alloc_with_id<F: FnOnce(usize) -> T>(&mut self, f: F) -> (id: usize)
        requires
            old(self)@.len() < usize::MAX,
            f.requires((old(self)@.len() as usize,)),
        ensures
            id == old(self)@.len(),
            final(self)@.len() == old(self)@.len() + 1,
            final(self)@.subrange(0, id as int) == old(self)@,
            f.ensures((id,), final(self)@[id as int]),
    {
        let id = self.items.len();
        let item = f(id);
        self.items.push(item);
        proof {
            assert(self.items@.subrange(0, id as int) =~= old(self)@);
        }
        id
    }

    pub fn is_empty(&self) -> (r: bool)
        ensures
            r == (self@.len() == 0),
    {
        self.items.len() == 0
    }

    pub fn len(&self) -> (r: usize)
        ensures
            r == self@.len(),
    {
        self.items.len()
    }

    pub fn get(&self, index: usize) -> (r: &T)
        requires
            index < self@.len(),
        ensures
            *r == self@[index as int],
    {
        &self.items[index]
    }

    pub fn get_mut(&mut self, index: usize) -> (r: &mut T)
        requires
            index < old(self)@.len(),
        ensures
            *r == old(self)@[index as int],
            final(self)@ == old(self)@.update(index as int, *final(r)),
    {
        &mut self.items[index]
    }

    /// The stored items, in index order.
    pub fn as_slice(&self) -> (r: &[T])
        ensures
            r@ == self@,
    {
        self.items.as_slice()
    }
}

} // verus!
