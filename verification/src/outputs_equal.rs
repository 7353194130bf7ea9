//! The check that the official outputs of a subtask are not all identical: each output file is
//! hashed with BLAKE3 as it is read in chunks, and a subtask whose outputs all have the same hash
//! is reported with the beginning of its first output.

use vstd::prelude::*;

use crate::text::{push_str, u64_to_string};

verus! {

#[verifier::external_type_specification]
#[verifier::external_body]
pub struct ExHasher(blake3::Hasher);

/// The bytes a BLAKE3 hasher has been given so far, in order.
pub uninterp spec fn hasher_input(h: blake3::Hasher) -> Seq<u8>;

/// The 32 bytes of the BLAKE3 hash of `data`.
pub uninterp spec fn blake3_hash(data: Seq<u8>) -> Seq<u8>;

/// A BLAKE3 hasher that was given nothing yet (`blake3::Hasher::new`).
#[verifier::external_body]
fn new_hasher() -> (res: blake3::Hasher)
    ensures
        hasher_input(res) == Seq::<u8>::empty(),
{
    blake3::Hasher::new()
}

/// Gives more bytes to a BLAKE3 hasher (`blake3::Hasher::update`), which then holds the
/// concatenation of all it was given.
#[verifier::external_body]
fn update_hasher(h: &mut blake3::Hasher, chunk: &[u8])
    ensures
        hasher_input(*final(h)) == hasher_input(*old(h)) + chunk@,
{
    h.update(chunk);
}

/// The BLAKE3 hash of all the bytes given to the hasher (`blake3::Hasher::finalize`, then
/// `Hash::as_bytes`); the hasher is not changed.
#[verifier::external_body]
fn finalize_hasher(h: &blake3::Hasher) -> (res: [u8; 32])
    ensures
        res@ == blake3_hash(hasher_input(*h)),
{
    *h.finalize().as_bytes()
}

/// The text that a sequence of bytes encodes in UTF-8, if it is valid UTF-8.
pub uninterp spec fn utf8_decode(bytes: Seq<u8>) -> Option<Seq<char>>;

/// The text that the bytes encode in UTF-8 (`std::str::from_utf8`), if they are valid UTF-8.
#[verifier::external_body]
fn utf8_text(bytes: &[u8]) -> (res: Option<String>)
    ensures
        match res {
            Some(s) => utf8_decode(bytes@) == Some(s@),
            None => utf8_decode(bytes@) is None,
        },
{
    std::str::from_utf8(bytes).ok().map(|s| s.to_owned())
}

/// What is kept of an official output file: its first chunk, if it is not empty, and its hash.
#[derive(Debug, Clone)]
pub struct TestcaseOutput {
    pub first_chunk: Option<Vec<u8>>,
    pub hash: [u8; 32],
}

/// The view of an optional chunk.
pub open spec fn chunk_view(c: Option<Vec<u8>>) -> Option<Seq<u8>> {
    match c {
        Some(v) => Some(v@),
        None => None,
    }
}

/// Hashes an official output file of a subtask, read in chunks.
pub struct OutputHasher {
    /// The subtask of the testcase.
    subtask: u32,
    /// The first chunk read, if any.
    first_chunk: Option<Vec<u8>>,
    /// The hash of the chunks read so far.
    hasher: blake3::Hasher,
}

impl OutputHasher {
    /// The subtask of the testcase whose output is hashed.
    pub closed spec fn subtask_id(&self) -> u32 {
        self.subtask
    }

    /// The subtask of the testcase whose output is hashed.
    pub fn subtask(&self) -> (res: u32)
        ensures
            res == self.subtask_id(),
    {
        self.subtask
    }

    /// The bytes read so far.
    pub closed spec fn content(&self) -> Seq<u8> {
        hasher_input(self.hasher)
    }

    /// The first chunk read, if any.
    pub closed spec fn first(&self) -> Option<Seq<u8>> {
        chunk_view(self.first_chunk)
    }

    /// A hasher of an output of the given subtask that read nothing yet.
    pub fn new(subtask: u32) -> (res: OutputHasher)
        ensures
            res.subtask_id() == subtask,
            res.content() == Seq::<u8>::empty(),
            res.first() is None,
    {
        OutputHasher { subtask, first_chunk: None, hasher: new_hasher() }
    }

    /// Reads the next chunk of the file; the empty chunk marks its end, and then the first chunk
    /// and the hash of the whole file are returned.
    pub fn add_chunk(&mut self, chunk: &[u8]) -> (res: Option<TestcaseOutput>)
        ensures
            final(self).subtask_id() == old(self).subtask_id(),
            chunk@.len() == 0 ==> {
                &&& res matches Some(o) && o.hash@ == blake3_hash(old(self).content())
                    && chunk_view(o.first_chunk) == old(self).first()
                &&& final(self).content() == old(self).content()
                &&& final(self).first() == old(self).first()
            },
            chunk@.len() > 0 ==> {
                &&& res is None
                &&& final(self).content() == old(self).content() + chunk@
                &&& final(self).first() == if old(self).first() is None { Some(chunk@) } else { old(self).first() }
            },
    {
        if chunk.len() == 0 {
            let hash = finalize_hasher(&self.hasher);
            let first_chunk = match &self.first_chunk {
                Some(c) => Some(c.clone()),
                None => None,
            };
            Some(TestcaseOutput { first_chunk, hash })
        } else {
            if self.first_chunk.is_none() {
                let mut c: Vec<u8> = Vec::new();
                let mut i: usize = 0;
                while i < chunk.len()
                    invariant
                        i <= chunk@.len(),
                        c@ == chunk@.take(i as int),
                    decreases chunk@.len() - i,
                {
                    c.push(chunk[i]);
                    proof { assert(c@ =~= chunk@.take(i + 1)); }
                    i += 1;
                }
                assert(chunk@.take(i as int) =~= chunk@);
                self.first_chunk = Some(c);
            }
            update_hasher(&mut self.hasher, chunk);
            None
        }
    }
}

/// A warning with an optional note.
pub struct Warning {
    pub message: String,
    pub note: Option<String>,
}

/// All the outputs have the hash of the first.
pub open spec fn all_equal(outputs: Seq<TestcaseOutput>) -> bool {
    forall|i: int| 0 <= i < outputs.len() ==> (#[trigger] outputs[i]).hash@ == outputs[0].hash@
}

/// The message about the identical outputs of a subtask, with its name when it has one.
pub open spec fn identical_message(id: nat, name: Option<Seq<char>>) -> Seq<char> {
    "All outputs for subtask "@ + crate::text::decimal(id) + match name {
        Some(n) => " ("@ + n + ")"@,
        None => Seq::empty(),
    } + " are identical"@
}

/// The note about the identical outputs: the first twenty characters of the first output, when
/// it is valid UTF-8.
pub open spec fn identical_note(first: Seq<u8>) -> Option<Seq<char>> {
    match utf8_decode(first) {
        Some(t) => Some("They all start with: "@ + t.take(if t.len() < 20 { t.len() as int } else { 20 })),
        None => None,
    }
}

/// The subtasks whose outputs are compared, given each subtask as its id and its number of
/// testcases: those with at least two testcases, in order.
pub fn compared_subtasks(subtasks: &Vec<(u32, usize)>) -> (res: Vec<u32>)
    ensures
        res@ == subtasks@.filter(|st: (u32, usize)| st.1 >= 2).map_values(|st: (u32, usize)| st.0),
{
    let ghost pred = |st: (u32, usize)| st.1 >= 2;
    let mut res: Vec<u32> = Vec::new();
    let mut i: usize = 0;
    proof {
        reveal(Seq::filter);
        assert(subtasks@.take(0).filter(pred) =~= Seq::<(u32, usize)>::empty());
    }
    while i < subtasks.len()
        invariant
            pred == (|st: (u32, usize)| st.1 >= 2),
            i <= subtasks@.len(),
            res@ == subtasks@.take(i as int).filter(pred).map_values(|st: (u32, usize)| st.0),
        decreases subtasks@.len() - i,
    {
        let st = subtasks[i];
        let ghost f = subtasks@.take(i as int).filter(pred);
        proof {
            reveal(Seq::filter);
            assert(subtasks@.take(i + 1).drop_last() =~= subtasks@.take(i as int));
            assert(subtasks@.take(i + 1).last() == st);
            assert(subtasks@.take(i + 1).filter(pred) == if pred(st) { f.push(st) } else { f });
        }
        if st.1 >= 2 {
            res.push(st.0);
            proof {
                assert(f.push(st).map_values(|st: (u32, usize)| st.0) =~= f.map_values(|st: (u32, usize)| st.0).push(st.0));
            }
        }
        i += 1;
    }
    proof { assert(subtasks@.take(i as int) =~= subtasks@); }
    res
}

/// The warning about a subtask whose outputs are all the same, once the outputs of all its
/// testcases are known: `outputs` holds those read so far, `num_testcases` is the number of its
/// testcases. The subtasks checked have testcases, and a first output with the same hash as all
/// the others is not empty.
pub fn identical_outputs(id: u32, name: Option<&str>, outputs: &Vec<TestcaseOutput>, num_testcases: usize) -> (res: Option<Warning>)
    requires
        num_testcases > 0,
        outputs@.len() == num_testcases && all_equal(outputs@) ==> outputs@[0].first_chunk is Some,
    ensures
        outputs@.len() != num_testcases || !all_equal(outputs@) ==> res is None,
        outputs@.len() == num_testcases && all_equal(outputs@) ==> (res matches Some(w)
            && w.message@ == identical_message(id as nat, match name { Some(n) => Some(n@), None => None })
            && match identical_note(chunk_view(outputs@[0].first_chunk)->0) {
                Some(n) => w.note matches Some(x) && x@ == n,
                None => w.note is None,
            }),
{
    if outputs.len() != num_testcases {
        return None;
    }
    let first = &outputs[0];
    let mut i: usize = 0;
    while i < outputs.len()
        invariant
            i <= outputs@.len(),
            outputs@.len() > 0,
            first == outputs@[0],
            forall|j: int| 0 <= j < i ==> (#[trigger] outputs@[j]).hash@ == outputs@[0].hash@,
        decreases outputs@.len() - i,
    {
        let mut k: usize = 0;
        let mut same = true;
        while k < 32
            invariant
                k <= 32,
                i < outputs@.len(),
                first == outputs@[0],
                same <==> forall|m: int| 0 <= m < k ==> outputs@[i as int].hash@[m] == first.hash@[m],
            decreases 32 - k,
        {
            if outputs[i].hash[k] != first.hash[k] {
                same = false;
            }
            k += 1;
        }
        if !same {
            proof {
                assert(outputs@[i as int].hash@ != outputs@[0].hash@);
            }
            return None;
        }
        assert(outputs@[i as int].hash@ =~= outputs@[0].hash@);
        i += 1;
    }
    let mut message = "All outputs for subtask ".to_owned();
    let n = u64_to_string(id as u64);
    push_str(&mut message, n.as_str());
    match name {
        Some(nm) => {
            push_str(&mut message, " (");
            push_str(&mut message, nm);
            push_str(&mut message, ")");
        },
        None => {},
    }
    push_str(&mut message, " are identical");
    proof {
        reveal_strlit(" (");
        reveal_strlit(")");
        assert(message@ =~= identical_message(id as nat, match name { Some(n) => Some(n@), None => None }));
    }
    let note = match &first.first_chunk {
        None => None,
        Some(c) => match utf8_text(c.as_slice()) {
            None => None,
            Some(t) => {
                let len = t.unicode_len();
                let end: usize = if len < 20 { len } else { 20 };
                let mut s = "They all start with: ".to_owned();
                push_str(&mut s, t.as_str().substring_char(0, end));
                proof {
                    assert(t@.subrange(0, end as int) =~= t@.take(end as int));
                }
                Some(s)
            },
        },
    };
    Some(Warning { message, note })
}

} // verus!
