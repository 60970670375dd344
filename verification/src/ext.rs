//! Trusted declarations for the outside functions and types the library
//! leans on: `String` construction and decoding from `std`, the id pool
//! that hands out descriptor and inode numbers, the lock-free queue behind
//! each bus, and the JSON encoder used for event payloads.

use vstd::prelude::*;

verus! {

/// Relies on `String`'s `FromIterator<char>` impl: collecting characters
/// yields a string holding exactly those characters in order.
#[verifier::external_body]
pub fn chars_to_string(v: &Vec<char>) -> (r: String)
    ensures
        r@ == v@,
{
    v.iter().collect()
}

/// Relies on `String::from_utf8`: succeeds exactly on valid UTF-8, and the
/// returned string's encoding is the input bytes.
#[verifier::external_body]
pub fn bytes_to_string(v: Vec<u8>) -> (r: Option<String>)
    ensures
        r is Some <==> vstd::utf8::valid_utf8(v@),
        r is Some ==> vstd::utf8::encode_utf8(r.unwrap()@) == v@,
{
    match String::from_utf8(v) {
        Ok(s) => Some(s),
        Err(_) => None,
    }
}

#[verifier::external_type_specification]
#[verifier::external_body]
pub struct ExIdPool(id_pool::IdPool);

/// The ids a pool has handed out and not yet taken back.
pub uninterp spec fn pool_used_ids(p: id_pool::IdPool) -> Set<usize>;

/// Relies on `id_pool::IdPool::new`: a fresh pool over the ids from 1 up,
/// with nothing handed out.
#[verifier::external_body]
pub fn pool_new() -> (p: id_pool::IdPool)
    ensures
        pool_used_ids(p) == Set::<usize>::empty(),
{
    id_pool::IdPool::new()
}

/// Relies on `id_pool::IdPool::request_id`: hands out the lowest id not in
/// use, which is at least 1; `None` only when every id below `usize::MAX`
/// is already out.
#[verifier::external_body]
pub fn pool_request(p: &mut id_pool::IdPool) -> (r: Option<usize>)
    ensures
        match r {
            Some(id) => {
                &&& 1 <= id
                &&& !pool_used_ids(*old(p)).contains(id)
                &&& pool_used_ids(*final(p)) == pool_used_ids(*old(p)).insert(id)
                &&& forall|j: usize| 1 <= j < id ==> pool_used_ids(*old(p)).contains(j)
            },
            None => {
                &&& pool_used_ids(*final(p)) == pool_used_ids(*old(p))
                &&& forall|j: usize| 1 <= j < usize::MAX ==> pool_used_ids(*old(p)).contains(j)
            },
        },
{
    p.request_id()
}

/// Relies on `id_pool::IdPool::return_id`: an id in use goes back to the
/// pool and becomes free again.
#[verifier::external_body]
pub fn pool_return(p: &mut id_pool::IdPool, id: usize)
    requires
        pool_used_ids(*old(p)).contains(id),
    ensures
        pool_used_ids(*final(p)) == pool_used_ids(*old(p)).remove(id),
{
    let _ = p.return_id(id);
}

#[verifier::external_type_specification]
#[verifier::external_body]
#[verifier::reject_recursive_types(T)]
pub struct ExSegQueue<T>(crossbeam_queue::SegQueue<T>);

/// The messages a bus queue holds, oldest first.
pub uninterp spec fn queue_view(q: crossbeam_queue::SegQueue<String>) -> Seq<Seq<char>>;

/// Relies on `crossbeam_queue::SegQueue::new`: a fresh queue is empty.
#[verifier::external_body]
pub fn queue_new() -> (q: crossbeam_queue::SegQueue<String>)
    ensures
        queue_view(q) == Seq::<Seq<char>>::empty(),
{
    crossbeam_queue::SegQueue::new()
}

/// Relies on `crossbeam_queue::SegQueue::push`: appends at the tail.
#[verifier::external_body]
pub fn queue_push(q: &mut crossbeam_queue::SegQueue<String>, v: String)
    ensures
        queue_view(*final(q)) == queue_view(*old(q)).push(v@),
{
    q.push(v)
}

/// Relies on `crossbeam_queue::SegQueue::pop`: takes from the head, `None`
/// exactly when the queue is empty.
#[verifier::external_body]
pub fn queue_pop(q: &mut crossbeam_queue::SegQueue<String>) -> (r: Option<String>)
    ensures
        (match r {
            Some(s) => {
                &&& queue_view(*old(q)).len() > 0
                &&& s@ == queue_view(*old(q))[0]
                &&& queue_view(*final(q)) == queue_view(*old(q)).drop_first()
            },
            None => {
                &&& queue_view(*old(q)).len() == 0
                &&& queue_view(*final(q)) == queue_view(*old(q))
            },
        }),
{
    q.pop()
}

/// What serde_json's encoder yields for a list of strings.
pub uninterp spec fn json_of_strings(items: Seq<Seq<char>>) -> Seq<char>;

/// Relies on `serde_json::to_string`: encodes a list of strings as one
/// JSON array of strings. On a list of strings it cannot fail: the writer
/// is a byte vector and string serialization returns no error.
#[verifier::external_body]
pub fn json_string_array(items: &Vec<String>) -> (r: Option<String>)
    ensures
        r is Some,
        r is Some ==> r.unwrap()@ == json_of_strings(items.deep_view()),
{
    serde_json::to_string(items).ok()
}

} // verus!
