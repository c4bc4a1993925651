use vstd::prelude::*;

verus! {

/// A named shard (a topic) that peers join, leave and publish to.
#[derive(Debug, Hash, PartialEq, Eq)]
pub struct Shard {
    id: String,
}

impl View for Shard {
    type V = Seq<char>;

    closed spec fn view(&self) -> Seq<char> {
        self.id@
    }
}

impl Clone for Shard {
    fn clone(&self) -> (r: Self)
        ensures
            r@ == self@,
    {
        Shard { id: self.id.clone() }
    }
}

impl Shard {
    /// Builds a shard with the given name.
    pub fn new(id: &str) -> (r: Shard)
        ensures
            r@ == id@,
    {
        Shard { id: id.to_owned() }
    }

    /// Builds a shard that takes ownership of its name.
    pub fn from_string(id: String) -> (r: Shard)
        ensures
            r@ == id@,
    {
        Shard { id }
    }

    /// The name of the shard.
    pub fn id(&self) -> (r: &str)
        ensures
            r@ == self@,
    {
        self.id.as_str()
    }

    /// Whether two shards have the same name.
    pub fn same_as(&self, other: &Shard) -> (r: bool)
        ensures
            r == (self@ == other@),
    {
        self.id == other.id
    }
}

/// A vector holding the bytes of a slice.
pub fn copy_bytes(b: &[u8]) -> (r: Vec<u8>)
    ensures
        r@ == b@,
{
    let mut r: Vec<u8> = Vec::new();
    let mut i: usize = 0;
    while i < b.len()
        invariant
            i <= b@.len(),
            r@ == b@.take(i as int),
        decreases b@.len() - i,
    {
        r.push(b[i]);
        i = i + 1;
        assert(r@ =~= b@.take(i as int));
    }
    assert(b@.take(b@.len() as int) =~= b@);
    r
}

/// Whether two byte strings are equal.
pub fn bytes_equal(a: &Vec<u8>, b: &Vec<u8>) -> (r: bool)
    ensures
        r == (a@ == b@),
{
    if a.len() != b.len() {
        return false;
    }
    let mut i: usize = 0;
    while i < a.len()
        invariant
            a@.len() == b@.len(),
            i <= a@.len(),
            forall|j: int| 0 <= j < i ==> a@[j] == b@[j],
        decreases a@.len() - i,
    {
        if a[i] != b[i] {
            return false;
        }
        i = i + 1;
    }
    assert(a@ =~= b@);
    true
}

} // verus!
