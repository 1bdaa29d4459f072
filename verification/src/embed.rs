//! The integer side of the built-in hashing embedder, and the device knob of
//! the model embedder.
//!
//! The hashing embedder lowercases a text, splits it on whitespace, hashes each
//! word with FNV-1a into one of `dim` buckets and counts the words per bucket.
//! Texts that share words therefore share buckets. Turning the counts into a
//! unit-length float vector happens outside the library.

use vstd::prelude::*;
use vstd::string::StringSliceAdditionalSpecFns;

use crate::text::{
    embed_terms, str_eq, to_ascii_lowercase, trim, trimmed, lower_ascii, views,
    whitespace_tokens,
};

verus! {

broadcast use vstd::seq_lib::group_seq_properties;

/// FNV-1a 64-bit offset basis.
pub const FNV_OFFSET: u64 = 0xcbf29ce484222325;

/// FNV-1a 64-bit prime.
pub const FNV_PRIME: u64 = 0x100000001b3;

/// FNV-1a over a byte string: start from the offset basis, and for each byte
/// xor it in and multiply by the prime, wrapping at 64 bits.
pub open spec fn fnv1a(bytes: Seq<u8>) -> u64
    decreases bytes.len(),
{
    if bytes.len() == 0 {
        FNV_OFFSET
    } else {
        vstd::wrapping::u64_specs::wrapping_mul(
            fnv1a(bytes.drop_last()) ^ (bytes.last() as u64),
            FNV_PRIME,
        )
    }
}

/// The bucket of a word: the FNV-1a hash of its UTF-8 bytes, modulo `dim`.
pub open spec fn bucket_of(word: Seq<char>, dim: usize) -> int {
    (fnv1a(vstd::utf8::encode_utf8(word)) % (dim as u64)) as int
}

/// How many of `words` fall into bucket `b`.
pub open spec fn bucket_count(words: Seq<Seq<char>>, dim: usize, b: int) -> nat
    decreases words.len(),
{
    if words.len() == 0 {
        0
    } else {
        bucket_count(words.drop_last(), dim, b) + if bucket_of(words.last(), dim) == b {
            1nat
        } else {
            0nat
        }
    }
}

/// The bucket counts of a text: entry `b` is the number of its words that hash
/// into bucket `b`.
pub open spec fn text_counts(text: Seq<char>, dim: usize) -> Seq<nat> {
    Seq::new(dim as nat, |b: int| bucket_count(embed_terms(text), dim, b))
}

/// Sum of a sequence of counts.
pub open spec fn total(s: Seq<nat>) -> nat
    decreases s.len(),
{
    if s.len() == 0 {
        0
    } else {
        total(s.drop_last()) + s.last()
    }
}

proof fn lemma_bucket_count_le(words: Seq<Seq<char>>, dim: usize, b: int)
    ensures
        bucket_count(words, dim, b) <= words.len(),
    decreases words.len(),
{
    if words.len() > 0 {
        lemma_bucket_count_le(words.drop_last(), dim, b);
    }
}

proof fn lemma_total_bump(s: Seq<nat>, i: int)
    requires
        0 <= i < s.len(),
    ensures
        total(s.update(i, s[i] + 1)) == total(s) + 1,
    decreases s.len(),
{
    if i < s.len() - 1 {
        lemma_total_bump(s.drop_last(), i);
        assert(s.update(i, s[i] + 1).drop_last() =~= s.drop_last().update(i, s[i] + 1));
    } else {
        assert(s.update(i, s[i] + 1).drop_last() =~= s.drop_last());
    }
}

proof fn lemma_bucket_in_range(word: Seq<char>, dim: usize)
    requires
        dim >= 1,
    ensures
        0 <= bucket_of(word, dim) < dim,
{
}

proof fn lemma_total_zero(n: nat)
    ensures
        total(Seq::new(n, |b: int| 0nat)) == 0,
    decreases n,
{
    if n > 0 {
        lemma_total_zero((n - 1) as nat);
        assert(Seq::new(n, |b: int| 0nat).drop_last() =~= Seq::new((n - 1) as nat, |b: int| 0nat));
    }
}

proof fn lemma_counts_total_of(words: Seq<Seq<char>>, dim: usize)
    requires
        dim >= 1,
    ensures
        total(Seq::new(dim as nat, |b: int| bucket_count(words, dim, b))) == words.len(),
    decreases words.len(),
{
    let cur = Seq::new(dim as nat, |b: int| bucket_count(words, dim, b));
    if words.len() == 0 {
        assert(cur =~= Seq::new(dim as nat, |b: int| 0nat));
        lemma_total_zero(dim as nat);
    } else {
        let prev = Seq::new(dim as nat, |b: int| bucket_count(words.drop_last(), dim, b));
        lemma_counts_total_of(words.drop_last(), dim);
        let i = bucket_of(words.last(), dim);
        lemma_bucket_in_range(words.last(), dim);
        assert(cur =~= prev.update(i, prev[i] + 1));
        lemma_total_bump(prev, i);
    }
}

/// Every word of a text falls into exactly one bucket: the bucket counts of a
/// text add up to its number of words.
pub proof fn lemma_counts_total(text: Seq<char>, dim: usize)
    requires
        dim >= 1,
    ensures
        total(text_counts(text, dim)) == embed_terms(text).len(),
{
    lemma_counts_total_of(embed_terms(text), dim);
}

/// The deterministic hashing embedder. Its dimension is at least one.
pub struct MockEmbedder {
    dim: usize,
}

impl MockEmbedder {
    /// The dimension: the number of buckets.
    pub closed spec fn buckets(&self) -> usize {
        self.dim
    }

    #[verifier::type_invariant]
    spec fn inv(self) -> bool {
        self.dim >= 1
    }

    /// An embedder with the default dimension, 64.
    pub fn new() -> (e: MockEmbedder)
        ensures
            e.buckets() == DEFAULT_DIM,
    {
        MockEmbedder::with_dim(DEFAULT_DIM)
    }

    /// An embedder with `dim` buckets; a zero `dim` is raised to one.
    pub fn with_dim(dim: usize) -> (e: MockEmbedder)
        ensures
            e.buckets() == if dim == 0 {
                1
            } else {
                dim
            },
    {
        let d = if dim == 0 {
            1
        } else {
            dim
        };
        MockEmbedder { dim: d }
    }

    /// The dimension of the vectors this embedder produces.
    pub fn dim(&self) -> (d: usize)
        ensures
            d == self.buckets(),
            d >= 1,
    {
        proof {
            use_type_invariant(self);
        }
        self.dim
    }

    /// The bucket of one word: FNV-1a over its UTF-8 bytes, modulo the
    /// dimension.
    pub fn bucket(&self, token: &str) -> (b: usize)
        ensures
            b as int == bucket_of(token@, self.buckets()),
            b < self.buckets(),
    {
        proof {
            use_type_invariant(self);
        }
        let bytes = token.as_bytes();
        let mut hash: u64 = FNV_OFFSET;
        let mut i: usize = 0;
        while i < bytes.len()
            invariant
                bytes@ == token.spec_bytes(),
                0 <= i <= bytes@.len(),
                hash == fnv1a(bytes@.take(i as int)),
            decreases bytes@.len() - i,
        {
            assert(bytes@.take(i + 1).drop_last() =~= bytes@.take(i as int));
            hash = (hash ^ (bytes[i] as u64)).wrapping_mul(FNV_PRIME);
            i = i + 1;
        }
        assert(bytes@.take(bytes@.len() as int) =~= bytes@);
        let d = self.dim as u64;
        (hash % d) as usize
    }

    /// The bucket counts of `text`: one entry per bucket, each the number of
    /// the text's words (lowercased, split on whitespace) hashed into it. The
    /// embedding is this vector scaled to unit length; an all-zero vector
    /// (a text without words) stays zero.
    pub fn bucket_counts(&self, text: &str) -> (v: Vec<usize>)
        ensures
            v@.len() == self.buckets(),
            forall|b: int|
                0 <= b < v@.len() ==> #[trigger] v@[b] as nat == text_counts(
                    text@,
                    self.buckets(),
                )[b],
    {
        proof {
            use_type_invariant(self);
        }
        let dim = self.dim;
        let mut v: Vec<usize> = Vec::new();
        while v.len() < dim
            invariant
                v@.len() <= dim,
                forall|b: int| 0 <= b < v@.len() ==> #[trigger] v@[b] == 0,
            decreases dim - v@.len(),
        {
            v.push(0);
        }
        let toks = whitespace_tokens(text);
        let ghost words = views(toks@);
        let mut k: usize = 0;
        while k < toks.len()
            invariant
                words == views(toks@),
                words == embed_terms(text@),
                dim == self.buckets(),
                0 <= k <= toks@.len(),
                v@.len() == dim,
                forall|b: int|
                    0 <= b < dim ==> #[trigger] v@[b] as nat == bucket_count(
                        words.take(k as int),
                        dim,
                        b,
                    ),
            decreases toks@.len() - k,
        {
            assert(words.take(k + 1).drop_last() =~= words.take(k as int));
            assert(words[k as int] == toks@[k as int]@);
            let idx = self.bucket(toks[k].as_str());
            proof {
                lemma_bucket_count_le(words.take(k as int), dim, idx as int);
            }
            let c = v[idx];
            v.set(idx, c + 1);
            k = k + 1;
        }
        assert(words.take(words.len() as int) =~= words);
        v
    }
}

/// The default dimension of the hashing embedder.
pub const DEFAULT_DIM: usize = 64;

/// Which execution provider the model embedder asks for.
#[derive(Clone, Copy, Debug, PartialEq, Eq, Structural)]
pub enum Device {
    /// CPU only.
    Cpu,
    /// DirectML, requested explicitly.
    DirectML,
    /// DirectML where available, otherwise CPU.
    Auto,
}

/// The device a configured name selects: the name trimmed and ASCII
/// lowercased; `cpu` is the CPU, `dml` or `directml` is DirectML, anything
/// else (`auto` included) is `Auto`.
pub open spec fn device_for(name: Seq<char>) -> Device {
    let n = lower_ascii(trimmed(name));
    if n == "cpu"@ {
        Device::Cpu
    } else if n == "dml"@ || n == "directml"@ {
        Device::DirectML
    } else {
        Device::Auto
    }
}

impl Device {
    /// Read the `device` setting of a configuration.
    pub fn from_name(name: &str) -> (d: Device)
        ensures
            d == device_for(name@),
    {
        let t = trim(name);
        let n = to_ascii_lowercase(t.as_str());
        if str_eq(n.as_str(), "cpu") {
            Device::Cpu
        } else if str_eq(n.as_str(), "dml") || str_eq(n.as_str(), "directml") {
            Device::DirectML
        } else {
            Device::Auto
        }
    }
}

/// How many bulk sessions (and ingest workers) the `embed_workers` setting
/// asks for on a machine with `ncpu` cores: one by default; for `0`, half
/// the cores kept within `1..=4`; otherwise the number given, at least one.
pub open spec fn workers_for(embed_workers: Option<u64>, ncpu: usize) -> usize {
    match embed_workers {
        None => 1,
        Some(n) => if n == 0 {
            let h = ncpu / 2;
            if h < 1 {
                1
            } else if h > 4 {
                4
            } else {
                h
            }
        } else if (n as usize) < 1 {
            1
        } else {
            n as usize
        },
    }
}

/// The number of bulk sessions for the `embed_workers` setting.
pub fn worker_count(embed_workers: Option<u64>, ncpu: usize) -> (m: usize)
    ensures
        m == workers_for(embed_workers, ncpu),
        m >= 1,
{
    match embed_workers {
        None => 1,
        Some(n) => if n == 0 {
            let h = ncpu / 2;
            if h < 1 {
                1
            } else if h > 4 {
                4
            } else {
                h
            }
        } else {
            #[verifier::truncate]
            let m = n as usize;
            if m < 1 {
                1
            } else {
                m
            }
        },
    }
}

/// The device and intra-op thread count of one model session.
#[derive(Clone, Copy, Debug, PartialEq, Eq, Structural)]
pub struct SessionTuning {
    pub device: Device,
    pub threads: usize,
}

/// Threads for the query session: two, or fewer on a smaller machine, at
/// least one.
pub open spec fn query_threads_for(ncpu: usize) -> usize {
    if ncpu < 1 {
        1
    } else if ncpu > 2 {
        2
    } else {
        ncpu
    }
}

/// Threads for each bulk session, so that the sessions and the query session
/// together do not ask for more than the machine's cores: an explicit
/// `intra_threads` is capped at the cores (one session) or at the fair share
/// of each of `m` sessions; otherwise one session takes the cores the query
/// leaves, and several split all cores between them.
pub open spec fn bulk_threads_for(intra_threads: Option<u64>, m_workers: usize, ncpu: usize) -> usize {
    let m = if m_workers < 1 {
        1
    } else {
        m_workers
    };
    let share = if ncpu / m < 1 {
        1
    } else {
        ncpu / m
    };
    match intra_threads {
        Some(t) if t >= 1 => {
            let cap = if m <= 1 {
                ncpu
            } else {
                share
            };
            if (t as usize) < cap {
                t as usize
            } else {
                cap
            }
        },
        _ => if m <= 1 {
            let rest = ncpu - query_threads_for(ncpu);
            if rest < 1 {
                1
            } else {
                rest as usize
            }
        } else {
            share
        },
    }
}

/// The tunings of a bulk session and of the query session: the bulk one on
/// `device` with its share of the cores, the query one on the CPU.
pub fn tunings(device: Device, intra_threads: Option<u64>, m_workers: usize, ncpu: usize) -> (r: (
    SessionTuning,
    SessionTuning,
))
    ensures
        r.0.device == device,
        r.0.threads == bulk_threads_for(intra_threads, m_workers, ncpu),
        r.1.device == Device::Cpu,
        r.1.threads == query_threads_for(ncpu),
{
    let query_threads = if ncpu < 1 {
        1
    } else if ncpu > 2 {
        2
    } else {
        ncpu
    };
    let m = if m_workers < 1 {
        1
    } else {
        m_workers
    };
    let share = if ncpu / m < 1 {
        1
    } else {
        ncpu / m
    };
    let bulk_threads = match intra_threads {
        Some(t) if t >= 1 => {
            let cap = if m <= 1 {
                ncpu
            } else {
                share
            };
            #[verifier::truncate]
            let tt = t as usize;
            if tt < cap {
                tt
            } else {
                cap
            }
        },
        _ => if m <= 1 {
            if ncpu <= query_threads {
                1
            } else {
                let rest = ncpu - query_threads;
                if rest < 1 {
                    1
                } else {
                    rest
                }
            }
        } else {
            share
        },
    };
    (
        SessionTuning { device, threads: bulk_threads },
        SessionTuning { device: Device::Cpu, threads: query_threads },
    )
}

/// Several bulk sessions run on the CPU (one device cannot serve them side
/// by side); a single one keeps the requested device.
pub fn bulk_device(m_workers: usize, device: Device) -> (d: Device)
    ensures
        d == if m_workers > 1 {
            Device::Cpu
        } else {
            device
        },
{
    if m_workers > 1 {
        Device::Cpu
    } else {
        device
    }
}

/// The bulk session a pinned worker uses: its slot modulo the number of
/// sessions (taken as at least one).
pub fn pinned_session(slot: usize, n_sessions: usize) -> (i: usize)
    ensures
        i == slot % (if n_sessions < 1 {
            1
        } else {
            n_sessions
        }),
        i < n_sessions || (n_sessions == 0 && i == 0),
{
    let n = if n_sessions < 1 {
        1
    } else {
        n_sessions
    };
    slot % n
}


} // verus!
