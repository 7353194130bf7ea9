//! The decisions of the client of an executor while it waits for an evaluation: it goes on until
//! the server reported the end of the evaluation and every output file the client asked for came
//! back.

use vstd::prelude::*;

verus! {

/// How many output files the client still waits for, once the server reported the end of the
/// evaluation; nothing before that.
pub struct ClientState {
    pub missing_files: Option<usize>,
}

/// The positions of the `false` in a sequence, in increasing order.
pub open spec fn false_positions(s: Seq<bool>) -> Seq<usize>
    decreases s.len(),
{
    if s.len() == 0 {
        Seq::empty()
    } else if s.last() {
        false_positions(s.drop_last())
    } else {
        false_positions(s.drop_last()).push((s.len() - 1) as usize)
    }
}

impl ClientState {
    /// The state when the evaluation starts.
    pub fn new() -> (res: ClientState)
        ensures
            res.missing_files is None,
    {
        ClientState { missing_files: None }
    }

    /// Whether the client keeps waiting for messages of the server: until the end of the
    /// evaluation was reported and no file is missing.
    pub fn waiting(&self) -> (res: bool)
        ensures
            res == match self.missing_files {
                None => true,
                Some(n) => n > 0,
            },
    {
        match self.missing_files {
            None => true,
            Some(n) => n > 0,
        }
    }

    /// A file the client asked for arrived: one less is missing.
    pub fn file_received(&mut self)
        requires
            old(self).missing_files matches Some(n) ==> n > 0,
        ensures
            final(self).missing_files == match old(self).missing_files {
                None => None,
                Some(n) => Some((n - 1) as usize),
            },
    {
        match self.missing_files {
            None => {},
            Some(n) => {
                self.missing_files = Some(n - 1);
            },
        }
    }

    /// The server reported the end of the evaluation with its output files; `in_store[i]` tells
    /// whether the `i`-th one is already in the local store. The others have to be asked for:
    /// their positions are returned, and the client waits for that many files.
    pub fn evaluation_done(&mut self, in_store: &Vec<bool>) -> (res: Vec<usize>)
        ensures
            res@ == false_positions(in_store@),
            final(self).missing_files == Some(res@.len() as usize),
    {
        let mut ask: Vec<usize> = Vec::new();
        let mut i: usize = 0;
        while i < in_store.len()
            invariant
                i <= in_store@.len(),
                ask@ == false_positions(in_store@.take(i as int)),
                ask@.len() <= i,
            decreases in_store@.len() - i,
        {
            proof {
                assert(in_store@.take(i + 1).drop_last() =~= in_store@.take(i as int));
                assert(in_store@.take(i + 1).last() == in_store@[i as int]);
            }
            if !in_store[i] {
                ask.push(i);
            }
            i += 1;
        }
        assert(in_store@.take(i as int) =~= in_store@);
        self.missing_files = Some(ask.len());
        ask
    }
}

/// The first bytes of a file sent by the server, kept up to a limit as the chunks arrive.
pub struct ContentPrefix {
    limit: usize,
    data: Vec<u8>,
}

impl ContentPrefix {
    /// The bytes kept so far.
    pub closed spec fn kept(&self) -> Seq<u8> {
        self.data@
    }

    /// The number of bytes to keep.
    pub closed spec fn max_len(&self) -> usize {
        self.limit
    }

    /// Nothing kept yet.
    pub fn new(limit: usize) -> (res: ContentPrefix)
        ensures
            res.kept() == Seq::<u8>::empty(),
            res.max_len() == limit,
            res.kept().len() <= res.max_len(),
    {
        ContentPrefix { limit, data: Vec::new() }
    }

    /// Keeps the beginning of the next chunk, as long as fewer bytes than the limit are kept:
    /// what is kept is the beginning of all the chunks so far, up to the limit.
    pub fn add_chunk(&mut self, chunk: &[u8])
        requires
            old(self).kept().len() <= old(self).max_len(),
        ensures
            final(self).max_len() == old(self).max_len(),
            final(self).kept().len() <= final(self).max_len(),
            final(self).kept() == (old(self).kept() + chunk@).take(
                if old(self).kept().len() + chunk@.len() <= old(self).max_len() {
                    (old(self).kept().len() + chunk@.len()) as int
                } else {
                    old(self).max_len() as int
                },
            ),
    {
        let ghost before = self.data@;
        if self.data.len() < self.limit {
            let room = self.limit - self.data.len();
            let n = if chunk.len() < room { chunk.len() } else { room };
            let mut i: usize = 0;
            while i < n
                invariant
                    i <= n,
                    n <= chunk@.len(),
                    self.limit == old(self).limit,
                    self.data@ == before + chunk@.take(i as int),
                decreases n - i,
            {
                self.data.push(chunk[i]);
                proof {
                    assert(self.data@ =~= before + chunk@.take(i + 1));
                }
                i += 1;
            }
        }
        proof {
            assert(self.data@ =~= (before + chunk@).take(
                if before.len() + chunk@.len() <= self.limit { (before.len() + chunk@.len()) as int } else { self.limit as int },
            ));
        }
    }

    /// The bytes kept.
    pub fn content(&self) -> (res: &Vec<u8>)
        ensures
            res@ == self.kept(),
    {
        &self.data
    }
}

/// Whether a file sent by the server is written to its destination: when it was produced
/// successfully, or when a failed one is wanted too.
pub fn should_write_file(success: bool, allow_failure: bool) -> (res: bool)
    ensures
        res == (success || allow_failure),
{
    success || allow_failure
}

} // verus!
