//! The offline embedder: features of a text are hashed into a fixed number
//! of buckets.
use crate::text::{
    chars_of, ends, ends_with, lemma_views_push, lowercase, owned, str_lowercase, string_of,
    trim_trailing, views, without_trailing,
};
use crate::words::{fields, split_whitespace};
use vstd::prelude::*;

verus! {

/// The features of a text: its runs of three characters, or its words where
/// it is shorter than that; all in lower case.
pub open spec fn features_of(text: Seq<char>) -> Seq<Seq<char>> {
    let lower = str_lowercase(text);
    if lower.len() < 3 {
        fields(lower)
    } else {
        Seq::new((lower.len() - 2) as nat, |i: int| lower.subrange(i, i + 3))
    }
}

/// The bucket of a hash.
pub open spec fn bucket(h: u64, dim: usize) -> int {
    (h as usize) as int % dim as int
}

/// How many of some hashes fall into a bucket.
pub open spec fn in_bucket(hashes: Seq<u64>, dim: usize, b: int) -> nat
    decreases hashes.len(),
{
    if hashes.len() == 0 {
        0
    } else {
        in_bucket(hashes.drop_last(), dim, b) + (if bucket(hashes.last(), dim) == b {
            1nat
        } else {
            0nat
        })
    }
}

/// Whether some numbers count hashes by bucket.
pub open spec fn are_counts(counts: Seq<u64>, hashes: Seq<u64>, dim: usize) -> bool {
    &&& counts.len() == dim
    &&& forall|b: int| 0 <= b < dim ==> #[trigger] counts[b] == in_bucket(hashes, dim, b)
}

/// Calls `Hash::hash` on a string with a `DefaultHasher`. The hash may differ
/// between machines and releases of the standard library, so nothing is said
/// of it.
#[verifier::external_body]
fn hash_word(w: &str) -> u64 {
    let mut h = std::collections::hash_map::DefaultHasher::new();
    std::hash::Hash::hash(w, &mut h);
    std::hash::Hasher::finish(&h)
}

/// Calls `Hash::hash` on three characters with a `DefaultHasher`. The hash
/// may differ between machines and releases of the standard library, so
/// nothing is said of it.
#[verifier::external_body]
fn hash_trigram(a: char, b: char, c: char) -> u64 {
    let mut h = std::collections::hash_map::DefaultHasher::new();
    std::hash::Hash::hash(&(a, b, c), &mut h);
    std::hash::Hasher::finish(&h)
}

/// Splits a text into its features.
pub fn features(text: &str) -> (r: Vec<String>)
    ensures
        views(r@) == features_of(text@),
{
    let lower: String = lowercase(text);
    let v: Vec<char> = chars_of(lower.as_str());
    let n: usize = v.len();
    if n < 3 {
        return split_whitespace(lower.as_str());
    }
    let mut out: Vec<String> = Vec::new();
    let ghost goal = features_of(text@);
    proof {
        assert(views(out@) =~= goal.take(0));
    }
    for i in 0..(n - 2)
        invariant
            n == v@.len(),
            n >= 3,
            goal.len() == n - 2,
            forall|k: int| 0 <= k < n - 2 ==> #[trigger] goal[k] == v@.subrange(k, k + 3),
            views(out@) == goal.take(i as int),
    {
        let w: String = string_of(&v, i, i + 3);
        proof {
            lemma_views_push(out@, w);
            assert(goal[i as int] == v@.subrange(i as int, i + 3));
            assert(goal.take(i + 1) =~= goal.take(i as int).push(w@));
        }
        out.push(w);
    }
    proof {
        assert(goal.take(goal.len() as int) =~= goal);
    }
    out
}

/// Counts hashes by bucket.
pub fn count_buckets(hashes: &Vec<u64>, dim: usize) -> (r: Vec<u64>)
    requires
        dim > 0,
    ensures
        are_counts(r@, hashes@, dim),
{
    let mut counts: Vec<u64> = Vec::new();
    for b in 0..dim
        invariant
            counts@.len() == b,
            forall|k: int| 0 <= k < b ==> #[trigger] counts@[k] == 0,
    {
        counts.push(0);
    }
    proof {
        assert(hashes@.take(0) =~= Seq::<u64>::empty());
    }
    for i in 0..hashes.len()
        invariant
            dim > 0,
            counts@.len() == dim,
            forall|b: int|
                0 <= b < dim ==> #[trigger] counts@[b] == in_bucket(
                    hashes@.take(i as int),
                    dim,
                    b,
                ),
            forall|b: int| 0 <= b < dim ==> #[trigger] counts@[b] <= i,
    {
        let h: u64 = hashes[i];
        let b: usize = #[verifier::truncate]
        (h as usize) % dim;
        let ghost before = counts@;
        let c: u64 = counts[b];
        counts.set(b, c + 1);
        proof {
            let t = hashes@.take(i + 1);
            assert(t.drop_last() =~= hashes@.take(i as int));
            assert(t.last() == h);
            assert(b as int == bucket(h, dim));
            assert forall|k: int| 0 <= k < dim implies #[trigger] counts@[k] == in_bucket(
                t,
                dim,
                k,
            ) by {
                assert(before[k] == in_bucket(hashes@.take(i as int), dim, k));
            }
        }
    }
    proof {
        assert(hashes@.take(hashes@.len() as int) =~= hashes@);
    }
    counts
}

/// An embedder that needs no network. It gives the number of features in
/// each bucket; the vector of a text is that, scaled to length one.
#[derive(Debug, Clone, Copy)]
pub struct HashEmbedder {
    pub dim: usize,
}

/// The default number of buckets.
pub const DEFAULT_DIM: usize = 64;

impl Default for HashEmbedder {
    fn default() -> (r: HashEmbedder)
        ensures
            r.dim == DEFAULT_DIM,
    {
        HashEmbedder::new()
    }
}

impl HashEmbedder {
    pub fn new() -> (r: HashEmbedder)
        ensures
            r.dim == DEFAULT_DIM,
    {
        HashEmbedder { dim: DEFAULT_DIM }
    }

    pub fn with_dim(dim: usize) -> (r: HashEmbedder)
        ensures
            r.dim == dim,
    {
        HashEmbedder { dim }
    }

    pub fn provider_name(&self) -> (r: &'static str)
        ensures
            r@ == "hash"@,
    {
        "hash"
    }

    pub fn dimension(&self) -> (r: usize)
        ensures
            r == self.dim,
    {
        self.dim
    }

    /// How many features of a text fall into each bucket: one hash per
    /// feature, counted by bucket.
    pub fn encode_one(&self, text: &str) -> (r: Vec<u64>)
        requires
            self.dim > 0,
        ensures
            r@.len() == self.dim,
            exists|hashes: Seq<u64>|
                hashes.len() == features_of(text@).len() && #[trigger] are_counts(
                    r@,
                    hashes,
                    self.dim,
                ),
    {
        let fs: Vec<String> = features(text);
        let short: bool = lowercase(text).as_str().unicode_len() < 3;
        let mut hashes: Vec<u64> = Vec::new();
        let ghost goal = features_of(text@);
        for i in 0..fs.len()
            invariant
                views(fs@) == goal,
                goal == features_of(text@),
                short == (str_lowercase(text@).len() < 3),
                hashes@.len() == i,
        {
            if short {
                hashes.push(hash_word(fs[i].as_str()));
            } else {
                proof {
                    assert(views(fs@)[i as int] == fs@[i as int]@);
                    let lower = str_lowercase(text@);
                    assert(goal.len() == lower.len() - 2);
                    assert(goal[i as int] == lower.subrange(i as int, i + 3));
                    assert(fs@[i as int]@.len() == 3);
                }
                let w: Vec<char> = chars_of(fs[i].as_str());
                hashes.push(hash_trigram(w[0], w[1], w[2]));
            }
        }
        let counts: Vec<u64> = count_buckets(&hashes, self.dim);
        proof {
            assert(hashes@.len() == goal.len());
        }
        counts
    }
}

/// The address of an embedding service: an endpoint that does not name it
/// yet is completed.
pub open spec fn service_url(endpoint: Seq<char>) -> Seq<char> {
    if ends(endpoint, "/embeddings"@) {
        endpoint
    } else {
        without_trailing(endpoint, '/') + "/v1/embeddings"@
    }
}

/// The address of an embedding service.
pub fn embeddings_url(endpoint: &str) -> (r: String)
    ensures
        r@ == service_url(endpoint@),
{
    if ends_with(endpoint, "/embeddings") {
        owned(endpoint)
    } else {
        let mut s: String = trim_trailing(endpoint, '/');
        s.append("/v1/embeddings");
        s
    }
}

/// Why the vectors of an embedding service cannot be used.
#[derive(Debug, Clone, Copy, PartialEq, Eq, Structural)]
pub enum EmbeddingError {
    /// There is not one vector per text.
    Count { expected: usize, got: usize },
    /// The vector of a text has not the dimension of the others.
    Dimension { text: usize, expected: usize, got: usize },
}

/// Whether there is one vector per text, each of the given dimension.
pub open spec fn well_shaped(vectors: Seq<Vec<u32>>, texts: nat, dim: nat) -> bool {
    vectors.len() == texts && forall|i: int|
        0 <= i < vectors.len() ==> (#[trigger] vectors[i])@.len() == dim
}

/// Checks what an embedding service answered: one vector per text, each of
/// the given dimension.
pub fn check_embeddings(vectors: Vec<Vec<u32>>, texts: usize, dim: usize) -> (r: Result<
    Vec<Vec<u32>>,
    EmbeddingError,
>)
    ensures
        match r {
            Ok(v) => v == vectors && well_shaped(vectors@, texts as nat, dim as nat),
            Err(EmbeddingError::Count { expected, got }) => vectors@.len() != texts && expected
                == texts && got == vectors@.len(),
            Err(EmbeddingError::Dimension { text, expected, got }) => {
                &&& vectors@.len() == texts
                &&& text < texts
                &&& expected == dim
                &&& got == vectors@[text as int]@.len()
                &&& got != dim
                &&& forall|i: int| 0 <= i < text ==> (#[trigger] vectors@[i])@.len() == dim
            },
        },
{
    let n: usize = vectors.len();
    if n != texts {
        return Err(EmbeddingError::Count { expected: texts, got: n });
    }
    for i in 0..n
        invariant
            n == vectors@.len(),
            n == texts,
            forall|k: int| 0 <= k < i ==> (#[trigger] vectors@[k])@.len() == dim,
    {
        let got: usize = vectors[i].len();
        if got != dim {
            return Err(EmbeddingError::Dimension { text: i, expected: dim, got });
        }
    }
    Ok(vectors)
}

/// The features of a text of at least three characters are all its runs of
/// three, in lower case, in order; those of a shorter one its words.
pub proof fn law_features_are_trigrams(text: Seq<char>)
    ensures
        str_lowercase(text).len() >= 3 ==> features_of(text).len() == str_lowercase(text).len() - 2,
        str_lowercase(text).len() >= 3 ==> forall|i: int, k: int|
            0 <= i < features_of(text).len() && 0 <= k < 3 ==> (#[trigger] features_of(
                text,
            )[i][k]) == str_lowercase(text)[i + k],
        str_lowercase(text).len() >= 3 ==> forall|i: int|
            0 <= i < features_of(text).len() ==> (#[trigger] features_of(text)[i]).len() == 3,
        str_lowercase(text).len() < 3 ==> features_of(text) == fields(str_lowercase(text)),
{
}

/// How many of some hashes fall into the first `n` buckets.
pub open spec fn in_first_buckets(hashes: Seq<u64>, dim: usize, n: nat) -> nat
    decreases n,
{
    if n == 0 {
        0
    } else {
        in_first_buckets(hashes, dim, (n - 1) as nat) + in_bucket(hashes, dim, n - 1)
    }
}

proof fn lemma_one_more(hashes: Seq<u64>, h: u64, dim: usize, n: nat)
    requires
        dim > 0,
    ensures
        in_first_buckets(hashes.push(h), dim, n) == in_first_buckets(hashes, dim, n) + (if bucket(
            h,
            dim,
        ) < n {
            1nat
        } else {
            0nat
        }),
    decreases n,
{
    assert(hashes.push(h).drop_last() =~= hashes);
    if n > 0 {
        lemma_one_more(hashes, h, dim, (n - 1) as nat);
    }
}

/// Every hash is counted in just one bucket: a hash more raises the count of
/// its own bucket by one, and the counts of all buckets add up to the number
/// of hashes.
pub proof fn law_every_hash_is_counted_once(hashes: Seq<u64>, h: u64, dim: usize, b: int)
    requires
        dim > 0,
    ensures
        0 <= bucket(h, dim) < dim,
        in_bucket(hashes.push(h), dim, bucket(h, dim)) == in_bucket(hashes, dim, bucket(h, dim))
            + 1,
        b != bucket(h, dim) ==> in_bucket(hashes.push(h), dim, b) == in_bucket(hashes, dim, b),
        in_first_buckets(hashes, dim, dim as nat) == hashes.len(),
    decreases hashes.len(),
{
    assert(hashes.push(h).drop_last() =~= hashes);
    assert(0 <= bucket(h, dim) < dim) by (nonlinear_arith)
        requires
            dim > 0,
            bucket(h, dim) == (h as usize) as int % dim as int,
    ;
    if hashes.len() > 0 {
        let d = hashes.drop_last();
        law_every_hash_is_counted_once(d, hashes.last(), dim, b);
        lemma_one_more(d, hashes.last(), dim, dim as nat);
        assert(d.push(hashes.last()) =~= hashes);
    } else {
        lemma_no_hash(hashes, dim, dim as nat);
    }
}

proof fn lemma_no_hash(hashes: Seq<u64>, dim: usize, n: nat)
    requires
        hashes.len() == 0,
    ensures
        in_first_buckets(hashes, dim, n) == 0,
    decreases n,
{
    if n > 0 {
        lemma_no_hash(hashes, dim, (n - 1) as nat);
    }
}

/// The address of a service always names the embeddings; one that does
/// already stays as it is, so completing it again changes nothing, and
/// slashes at the end do not matter.
pub proof fn law_service_address(endpoint: Seq<char>)
    ensures
        ends(service_url(endpoint), "/embeddings"@),
        service_url(service_url(endpoint)) == service_url(endpoint),
        ends(endpoint, "/embeddings"@) ==> service_url(endpoint) == endpoint,
        !ends(endpoint, "/embeddings"@) && !ends(endpoint, "/"@) ==> service_url(endpoint)
            == endpoint + "/v1/embeddings"@,
        service_url(endpoint.push('/')) == service_url(endpoint) || ends(
            endpoint,
            "/embeddings"@,
        ),
{
    reveal_strlit("/embeddings");
    reveal_strlit("/v1/embeddings");
    reveal_strlit("/");
    let u = without_trailing(endpoint, '/') + "/v1/embeddings"@;
    assert(u.skip(u.len() - 11) =~= "/embeddings"@);
    if endpoint.len() > 0 && endpoint.last() == '/' {
        assert(endpoint.skip(endpoint.len() - 1) =~= "/"@);
    }
    let p = endpoint.push('/');
    assert(p.drop_last() =~= endpoint);
    if ends(p, "/embeddings"@) {
        assert(p.skip(p.len() - 11)[10] == p[p.len() - 1]);
    }
}

} // verus!
