//! The bytes of a model file.
//!
//! A model is kept as a list of 64-bit words, one for each weight: the bit
//! pattern of the weight as a floating-point number. The file holds the
//! count of the words and then the words, eight bytes each, the lowest byte
//! first.
use vstd::bytes::{
    lemma_auto_spec_u64_to_from_le_bytes, spec_u64_from_le_bytes, spec_u64_to_le_bytes,
};
use vstd::prelude::*;

verus! {

/// The error of bincode, of which nothing is read.
#[verifier::external_type_specification]
#[verifier::external_body]
pub struct ExErrorKind(bincode::ErrorKind);

/// Why the bytes of a model could not be written or read.
#[derive(Clone, Copy, Debug, PartialEq, Eq, Structural)]
pub enum ModelError {
    /// the words could not be turned into bytes
    Unwritable,
    /// the bytes are not those of a list of words
    Malformed,
}

/// The bytes of the words, eight for each, the lowest byte first.
pub open spec fn payload(words: Seq<u64>) -> Seq<u8>
    decreases words.len(),
{
    if words.len() == 0 {
        Seq::empty()
    } else {
        payload(words.drop_last()) + spec_u64_to_le_bytes(words.last())
    }
}

/// The bytes of a list of words: the count as a word, then the words.
pub open spec fn encoded(words: Seq<u64>) -> Seq<u8> {
    spec_u64_to_le_bytes(words.len() as u64) + payload(words)
}

/// Whether the bytes begin with the `encoded` form of some list of words.
pub open spec fn readable(data: Seq<u8>) -> bool {
    exists|w: Seq<u64>| #[trigger] encoded(w).is_prefix_of(data)
}

/// The words take eight bytes each.
pub proof fn lemma_payload_len(words: Seq<u64>)
    ensures
        payload(words).len() == 8 * words.len(),
    decreases words.len(),
{
    lemma_auto_spec_u64_to_from_le_bytes();
    if words.len() > 0 {
        lemma_payload_len(words.drop_last());
    }
}

/// Two lists of one length with the same bytes are the same list.
pub proof fn lemma_payload_one(v: Seq<u64>, w: Seq<u64>)
    requires
        v.len() == w.len(),
        payload(v) == payload(w),
    ensures
        v == w,
    decreases v.len(),
{
    lemma_auto_spec_u64_to_from_le_bytes();
    if v.len() > 0 {
        let a = payload(v.drop_last());
        let b = payload(w.drop_last());
        lemma_payload_len(v.drop_last());
        lemma_payload_len(w.drop_last());
        let x = spec_u64_to_le_bytes(v.last());
        let y = spec_u64_to_le_bytes(w.last());
        assert((a + x).subrange(0, a.len() as int) =~= a);
        assert((b + y).subrange(0, b.len() as int) =~= b);
        assert((a + x).subrange(a.len() as int, a.len() as int + 8) =~= x);
        assert((b + y).subrange(b.len() as int, b.len() as int + 8) =~= y);
        assert(v.last() == w.last()) by {
            assert(spec_u64_from_le_bytes(x) == v.last());
            assert(spec_u64_from_le_bytes(y) == w.last());
        }
        lemma_payload_one(v.drop_last(), w.drop_last());
        assert(v =~= v.drop_last().push(v.last()));
        assert(w =~= w.drop_last().push(w.last()));
    } else {
        assert(v =~= w);
    }
}

/// Bytes begin with the `encoded` form of at most one list of words: what
/// is written is what is read back.
pub proof fn lemma_model_reads_back(words: Seq<u64>, data: Seq<u8>)
    requires
        encoded(words).is_prefix_of(data),
        data.len() <= u64::MAX,
    ensures
        readable(data),
        forall|w: Seq<u64>| #[trigger] encoded(w).is_prefix_of(data) ==> w == words,
{
    lemma_auto_spec_u64_to_from_le_bytes();
    lemma_payload_len(words);
    assert forall|w: Seq<u64>| #[trigger] encoded(w).is_prefix_of(data) implies w == words by {
        lemma_payload_len(w);
        let head_w = spec_u64_to_le_bytes(w.len() as u64);
        let head_v = spec_u64_to_le_bytes(words.len() as u64);
        assert(encoded(w).subrange(0, 8) =~= head_w);
        assert(encoded(words).subrange(0, 8) =~= head_v);
        assert(encoded(w).subrange(0, 8) =~= data.subrange(0, 8));
        assert(encoded(words).subrange(0, 8) =~= data.subrange(0, 8));
        assert(spec_u64_from_le_bytes(head_w) == spec_u64_from_le_bytes(head_v));
        assert(w.len() == words.len());
        let n = 8 + 8 * w.len();
        assert(encoded(w).subrange(8, n as int) =~= payload(w));
        assert(encoded(words).subrange(8, n as int) =~= payload(words));
        assert(encoded(w).subrange(8, n as int) =~= data.subrange(8, n as int));
        assert(encoded(words).subrange(8, n as int) =~= data.subrange(8, n as int));
        lemma_payload_one(w, words);
    }
}

/// Calls `bincode::serialize` on a list of words. With the configuration
/// that this function of bincode uses there is no limit on the size, whole
/// numbers are written with a fixed width and the lowest byte first, and a
/// list is its length as a 64-bit number followed by its items. Writing a
/// list of words into a vector of bytes has no way to fail: the bytes come
/// back, and they are `encoded`.
#[verifier::external_body]
fn serialize_words(words: &Vec<u64>) -> (bytes: Result<Vec<u8>, Box<bincode::ErrorKind>>)
    ensures
        bytes is Ok,
        bytes->Ok_0@ == encoded(words@),
{
    bincode::serialize(words)
}

/// Calls `bincode::deserialize` for a list of words. It reads the length and
/// then as many words, and takes no notice of bytes that follow them. It
/// fails only where the bytes end before the length or the words do: words
/// come back just when the bytes begin with the `encoded` form of a list,
/// and they are that list.
#[verifier::external_body]
fn deserialize_words(bytes: &[u8]) -> (words: Result<Vec<u64>, Box<bincode::ErrorKind>>)
    ensures
        words is Ok <==> readable(bytes@),
        words is Ok ==> encoded(words->Ok_0@).is_prefix_of(bytes@),
{
    bincode::deserialize(bytes)
}

/// What is made of the outcome of writing: the bytes, or that there are
/// none.
pub fn written(outcome: Result<Vec<u8>, Box<bincode::ErrorKind>>) -> (bytes: Result<
    Vec<u8>,
    ModelError,
>)
    ensures
        match outcome {
            Ok(b) => bytes == Ok::<Vec<u8>, ModelError>(b),
            Err(_) => bytes == Err::<Vec<u8>, ModelError>(ModelError::Unwritable),
        },
{
    match outcome {
        Ok(b) => Ok(b),
        Err(_) => Err(ModelError::Unwritable),
    }
}

/// What is made of the outcome of reading: the words, or that the bytes
/// hold none.
pub fn read(outcome: Result<Vec<u64>, Box<bincode::ErrorKind>>) -> (words: Result<
    Vec<u64>,
    ModelError,
>)
    ensures
        match outcome {
            Ok(w) => words == Ok::<Vec<u64>, ModelError>(w),
            Err(_) => words == Err::<Vec<u64>, ModelError>(ModelError::Malformed),
        },
{
    match outcome {
        Ok(w) => Ok(w),
        Err(_) => Err(ModelError::Malformed),
    }
}

/// The bytes of the model file for the weights with the bit patterns
/// `vector`: always there, and `encoded`.
pub fn save_encoded_vector(vector: &Vec<u64>) -> (bytes: Result<Vec<u8>, ModelError>)
    ensures
        bytes is Ok,
        bytes->Ok_0@ == encoded(vector@),
{
    written(serialize_words(vector))
}

/// The bit patterns of the weights in the bytes of a model file. Bytes after
/// the last weight are left unread. The weights come back just when the
/// bytes begin with the `encoded` form of a list of words, and they are that
/// list; so what `save_encoded_vector` has written is read back as it was.
pub fn load_encoded_vector(data: &[u8]) -> (vector: Result<Vec<u64>, ModelError>)
    ensures
        match vector {
            Ok(v) => {
                &&& encoded(v@).is_prefix_of(data@)
                &&& forall|w: Seq<u64>| #[trigger] encoded(w).is_prefix_of(data@) ==> w == v@
            },
            Err(e) => e == ModelError::Malformed && !readable(data@),
        },
{
    let size = data.len();
    let vector = read(deserialize_words(data));
    proof {
        if vector is Ok {
            assert(data@.len() == size);
            lemma_model_reads_back(vector->Ok_0@, data@);
        }
    }
    vector
}

} // verus!
