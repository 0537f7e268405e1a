//! A claim that the agent has accumulated about itself.
//!
//! It carries a confidence, an evidence count, tags and timestamps, so that
//! a store can rank it. Its identifier is derived from the text and the tags
//! with an FNV-1a hash, so that repeated observations of the same claim
//! collapse to one entry.
use crate::ambient::{from_millis, now, now_millis, utc_from_millis, Timestamp};
use crate::fixed::{HALF, ONE};
use crate::text::{copy_strings, fmt_hex16, hex_digits, owned, views};
use vstd::prelude::*;
use vstd::string::*;
use vstd::utf8::*;

verus! {

#[derive(Debug)]
pub struct SelfProposition {
    pub id: String,
    pub text: String,
    pub tags: Vec<String>,
    /// In billionths.
    pub confidence: u64,
    pub evidence_count: i32,
    /// Milliseconds since the Unix epoch.
    pub created_at_ms: i64,
    pub updated_at_ms: i64,
}

/// A proposition as a mathematical value.
pub struct Proposition {
    pub id: Seq<char>,
    pub text: Seq<char>,
    pub tags: Seq<Seq<char>>,
    pub confidence: u64,
    pub evidence_count: i32,
    pub created_at_ms: i64,
    pub updated_at_ms: i64,
}

impl View for SelfProposition {
    type V = Proposition;

    open spec fn view(&self) -> Proposition {
        Proposition {
            id: self.id@,
            text: self.text@,
            tags: views(self.tags@),
            confidence: self.confidence,
            evidence_count: self.evidence_count,
            created_at_ms: self.created_at_ms,
            updated_at_ms: self.updated_at_ms,
        }
    }
}

/// Where the hash starts.
pub const FNV_BASIS: u64 = 0xcbf29ce484222325;

/// One step of the hash: mix in a byte, then multiply.
pub open spec fn fnv_step(h: u64, b: u8) -> u64 {
    (h ^ (b as u64)).wrapping_mul(0x100000001B3u64)
}

/// The hash `h` continued over a sequence of bytes.
pub open spec fn fnv_bytes(h: u64, s: Seq<u8>) -> u64
    decreases s.len(),
{
    if s.len() == 0 {
        h
    } else {
        fnv_step(fnv_bytes(h, s.drop_last()), s.last())
    }
}

/// The hash `h` continued over tags, each after a vertical bar.
pub open spec fn fnv_tags(h: u64, tags: Seq<Seq<char>>) -> u64
    decreases tags.len(),
{
    if tags.len() == 0 {
        h
    } else {
        fnv_bytes(fnv_step(fnv_tags(h, tags.drop_last()), 0x7c), encode_utf8(tags.last()))
    }
}

/// The identifier of a claim.
pub open spec fn proposition_id(text: Seq<char>, tags: Seq<Seq<char>>) -> Seq<char> {
    "sp-"@ + hex_digits(
        fnv_tags(fnv_bytes(FNV_BASIS, encode_utf8(text)), tags) as nat,
        16,
    )
}

fn hash_str(h0: u64, s: &str) -> (h: u64)
    ensures
        h == fnv_bytes(h0, encode_utf8(s@)),
{
    let b: &[u8] = s.as_bytes();
    let ghost bytes = b@;
    let mut h: u64 = h0;
    let n: usize = b.len();
    for i in 0..n
        invariant
            n == b@.len(),
            bytes == b@,
            h == fnv_bytes(h0, bytes.take(i as int)),
    {
        h = (h ^ (b[i] as u64)).wrapping_mul(0x100000001B3u64);
        proof {
            assert(bytes.take(i + 1).drop_last() =~= bytes.take(i as int));
        }
    }
    proof {
        assert(bytes.take(n as int) =~= bytes);
    }
    h
}

/// The identifier of a claim: `sp-` and sixteen hexadecimal digits of a hash
/// over the text and each tag.
pub fn make_proposition_id(text: &str, tags: &[String]) -> (r: String)
    ensures
        r@ == proposition_id(text@, views(tags@)),
{
    let ghost h0 = fnv_bytes(FNV_BASIS, encode_utf8(text@));
    let mut h: u64 = hash_str(FNV_BASIS, text);
    let n: usize = tags.len();
    for i in 0..n
        invariant
            n == tags@.len(),
            h == fnv_tags(h0, views(tags@).take(i as int)),
    {
        h = (h ^ 0x7cu64).wrapping_mul(0x100000001B3u64);
        h = hash_str(h, tags[i].as_str());
        proof {
            assert(views(tags@).take(i + 1).drop_last() =~= views(tags@).take(i as int));
            assert(views(tags@).take(i + 1).last() == tags@[i as int]@);
            assert(0x7cu8 as u64 == 0x7cu64);
        }
    }
    proof {
        assert(views(tags@).take(n as int) =~= views(tags@));
    }
    let mut s: String = owned("sp-");
    s.append(fmt_hex16(h).as_str());
    s
}

/// A fresh proposition made at the given time.
pub open spec fn fresh_proposition(
    text: Seq<char>,
    tags: Seq<Seq<char>>,
    now_ms: i64,
) -> Proposition {
    Proposition {
        id: proposition_id(text, tags),
        text,
        tags,
        confidence: HALF,
        evidence_count: 1,
        created_at_ms: now_ms,
        updated_at_ms: now_ms,
    }
}

impl SelfProposition {
    /// Builds a fresh proposition as of now.
    pub fn new(text: &str, tags: Vec<String>) -> (r: SelfProposition)
        ensures
            r@ == fresh_proposition(text@, views(tags@), r@.created_at_ms),
    {
        let t: i64 = now_millis();
        SelfProposition::new_at(text, tags, t)
    }

    /// Builds a fresh proposition as of a given time.
    pub fn new_at(text: &str, tags: Vec<String>, now_ms: i64) -> (r: SelfProposition)
        ensures
            r@ == fresh_proposition(text@, views(tags@), now_ms),
    {
        let id: String = make_proposition_id(text, tags.as_slice());
        SelfProposition {
            id,
            text: owned(text),
            tags,
            confidence: HALF,
            evidence_count: 1,
            created_at_ms: now_ms,
            updated_at_ms: now_ms,
        }
    }

    /// Sets the confidence, held to at most one.
    pub fn with_confidence(self, c: u64) -> (r: SelfProposition)
        ensures
            r@ == (Proposition {
                confidence: if c > ONE {
                    ONE
                } else {
                    c
                },
                ..self@
            }),
    {
        let mut p: SelfProposition = self;
        p.confidence = if c > ONE {
            ONE
        } else {
            c
        };
        p
    }

    /// Sets the evidence count, at least zero.
    pub fn with_evidence_count(self, n: i32) -> (r: SelfProposition)
        ensures
            r@ == (Proposition {
                evidence_count: if n > 0 {
                    n
                } else {
                    0
                },
                ..self@
            }),
    {
        let mut p: SelfProposition = self;
        p.evidence_count = if n > 0 {
            n
        } else {
            0
        };
        p
    }

    /// When the claim was first made; the current time where the stored
    /// count is no date.
    pub fn created_at(&self) -> (r: Timestamp)
        ensures
            utc_from_millis(self.created_at_ms) matches Some(t) ==> r == t,
    {
        match from_millis(self.created_at_ms) {
            Some(t) => t,
            None => now(),
        }
    }

    /// When the claim was last changed; the current time where the stored
    /// count is no date.
    pub fn updated_at(&self) -> (r: Timestamp)
        ensures
            utc_from_millis(self.updated_at_ms) matches Some(t) ==> r == t,
    {
        match from_millis(self.updated_at_ms) {
            Some(t) => t,
            None => now(),
        }
    }

    /// Marks the claim as changed now.
    pub fn touch_now(&mut self)
        ensures
            final(self)@ == (Proposition { updated_at_ms: final(self)@.updated_at_ms, ..old(self)@ }),
    {
        self.updated_at_ms = now_millis();
    }
}

impl Clone for SelfProposition {
    fn clone(&self) -> (r: SelfProposition)
        ensures
            r@ == self@,
    {
        SelfProposition {
            id: self.id.clone(),
            text: self.text.clone(),
            tags: copy_strings(&self.tags),
            confidence: self.confidence,
            evidence_count: self.evidence_count,
            created_at_ms: self.created_at_ms,
            updated_at_ms: self.updated_at_ms,
        }
    }
}

proof fn lemma_hex_len(n: nat, k: nat)
    ensures
        hex_digits(n, k).len() == k,
    decreases k,
{
    if k > 0 {
        lemma_hex_len(n / 16, (k - 1) as nat);
    }
}

/// An identifier is `sp-` and sixteen digits.
pub proof fn law_identifier_form(text: Seq<char>, tags: Seq<Seq<char>>)
    ensures
        proposition_id(text, tags).len() == 19,
        proposition_id(text, tags).take(3) == "sp-"@,
{
    reveal_strlit("sp-");
    let n = fnv_tags(fnv_bytes(FNV_BASIS, encode_utf8(text)), tags) as nat;
    lemma_hex_len(n, 16);
    assert(proposition_id(text, tags).take(3) =~= "sp-"@);
}

/// Hashing goes byte by byte: hashing two pieces one after the other is
/// hashing them together, and a tag is hashed with a bar before it.
pub proof fn law_hash_goes_on(h: u64, a: Seq<u8>, b: Seq<u8>)
    ensures
        fnv_bytes(h, a + b) == fnv_bytes(fnv_bytes(h, a), b),
    decreases b.len(),
{
    if b.len() == 0 {
        assert(a + b =~= a);
    } else {
        law_hash_goes_on(h, a, b.drop_last());
        assert((a + b).drop_last() =~= a + b.drop_last());
    }
}

/// A claim without tags is hashed by its text alone, and each tag goes on
/// from there.
pub proof fn law_tags_are_hashed(h: u64, tags: Seq<Seq<char>>, tag: Seq<char>)
    ensures
        fnv_tags(h, seq![]) == h,
        fnv_tags(h, tags.push(tag)) == fnv_bytes(fnv_tags(h, tags), seq![0x7cu8] + encode_utf8(tag)),
{
    assert(tags.push(tag).drop_last() =~= tags);
    let f = fnv_tags(h, tags);
    law_hash_goes_on(f, seq![0x7cu8], encode_utf8(tag));
    let one = seq![0x7cu8];
    assert(one.drop_last() =~= Seq::<u8>::empty());
    assert(fnv_bytes(f, one.drop_last()) == f);
    assert(fnv_bytes(f, one) == fnv_step(f, 0x7c));
}

/// A fresh claim rests on one observation and is held to be as likely as
/// not.
pub proof fn law_fresh_claim(text: Seq<char>, tags: Seq<Seq<char>>, now_ms: i64)
    ensures
        ({
            let p = fresh_proposition(text, tags, now_ms);
            &&& p.text == text
            &&& p.tags == tags
            &&& p.confidence == 500_000_000
            &&& p.evidence_count == 1
            &&& p.created_at_ms == now_ms
            &&& p.updated_at_ms == now_ms
            &&& p.id == proposition_id(text, tags)
        }),
{
}

} // verus!
