//! Wildcard (glob-style) string matching: `?` matches exactly one character,
//! `*` matches zero or more characters, and a pattern without wildcard
//! characters matches by substring containment.

use vstd::prelude::*;
use crate::text::str_chars;

verus! {

/// A character is a wildcard metacharacter.
pub open spec fn is_wild_char(c: char) -> bool {
    c == '?' || c == '*'
}

/// The pattern contains at least one wildcard metacharacter.
pub open spec fn has_wildcards(p: Seq<char>) -> bool {
    exists|i: int| 0 <= i < p.len() && is_wild_char(p[i])
}

/// Glob matching of a whole text against a whole pattern:
/// `?` consumes one character, `*` consumes zero or more.
pub open spec fn glob_match(p: Seq<char>, s: Seq<char>) -> bool
    decreases p.len() + s.len(),
{
    if p.len() == 0 {
        s.len() == 0
    } else if p[0] == '*' {
        glob_match(p.skip(1), s) || (s.len() > 0 && glob_match(p, s.skip(1)))
    } else {
        s.len() > 0 && (p[0] == '?' || p[0] == s[0]) && glob_match(p.skip(1), s.skip(1))
    }
}

/// `p` occurs in `s` starting at index `i`.
pub open spec fn contains_at(p: Seq<char>, s: Seq<char>, i: int) -> bool {
    0 <= i && i + p.len() <= s.len() && s.subrange(i, i + p.len() as int) == p
}

/// `p` occurs somewhere in `s`.
pub open spec fn is_substring(p: Seq<char>, s: Seq<char>) -> bool {
    exists|i: int| contains_at(p, s, i)
}

/// What a wildcard pattern accepts: the empty pattern accepts only the empty
/// text; a pattern with wildcards matches the whole text as a glob; any other
/// pattern matches by substring containment.
pub open spec fn wild_matches(p: Seq<char>, s: Seq<char>) -> bool {
    if p.len() == 0 {
        s.len() == 0
    } else if has_wildcards(p) {
        glob_match(p, s)
    } else {
        is_substring(p, s)
    }
}

/// Does the pattern hold a `?` or a `*`?
pub fn is_wild_string(pattern: &str) -> (r: bool)
    ensures
        r == has_wildcards(pattern@),
{
    let chars = str_chars(pattern);
    let mut i: usize = 0;
    while i < chars.len()
        invariant
            0 <= i <= chars.len(),
            chars@ == pattern@,
            forall|k: int| 0 <= k < i ==> !is_wild_char(pattern@[k]),
        decreases chars.len() - i,
    {
        let c = chars[i];
        if c == '?' || c == '*' {
            return true;
        }
        i = i + 1;
    }
    false
}

/// A star at the head of the pattern absorbs some leading characters: a
/// match of the whole yields a split point for the rest of the pattern.
pub proof fn lemma_star_elim(p: Seq<char>, s: Seq<char>)
    requires
        p.len() > 0,
        p[0] == '*',
        glob_match(p, s),
    ensures
        exists|m: int| 0 <= m <= s.len() && glob_match(p.skip(1), s.skip(m)),
    decreases s.len(),
{
    if glob_match(p.skip(1), s) {
        assert(s.skip(0) =~= s);
        assert(0 <= 0 <= s.len() && glob_match(p.skip(1), s.skip(0)));
    } else {
        lemma_star_elim(p, s.skip(1));
        let m0 = choose|m0: int|
            0 <= m0 <= s.skip(1).len() && glob_match(p.skip(1), s.skip(1).skip(m0));
        assert(s.skip(1).skip(m0) =~= s.skip(m0 + 1));
        assert(0 <= m0 + 1 <= s.len() && glob_match(p.skip(1), s.skip(m0 + 1)));
    }
}

/// A star-free pattern prefix of length `len` is matched literally: the text
/// is at least that long, and the match continues past the prefix.
pub proof fn lemma_starfree_forced(p: Seq<char>, s: Seq<char>, len: int)
    requires
        0 <= len <= p.len(),
        forall|d: int| 0 <= d < len ==> p[d] != '*',
        glob_match(p, s),
    ensures
        len <= s.len(),
        glob_match(p.skip(len), s.skip(len)),
    decreases len,
{
    if len == 0 {
        assert(p.skip(0) =~= p);
        assert(s.skip(0) =~= s);
    } else {
        assert(p[0] != '*');
        assert(s.len() > 0);
        assert(glob_match(p.skip(1), s.skip(1)));
        assert(forall|d: int| 0 <= d < len - 1 ==> p.skip(1)[d] != '*');
        lemma_starfree_forced(p.skip(1), s.skip(1), len - 1);
        assert(p.skip(1).skip(len - 1) =~= p.skip(len));
        assert(s.skip(1).skip(len - 1) =~= s.skip(len));
    }
}

/// A pattern that starts with a star and matches a suffix of `s` also
/// matches from any earlier position.
pub proof fn lemma_star_monotonic(p: Seq<char>, s: Seq<char>, t1: int, t2: int)
    requires
        p.len() > 0,
        p[0] == '*',
        0 <= t1 <= t2 <= s.len(),
        glob_match(p, s.skip(t2)),
    ensures
        glob_match(p, s.skip(t1)),
    decreases t2 - t1,
{
    if t1 < t2 {
        lemma_star_monotonic(p, s, t1 + 1, t2);
        assert(s.skip(t1).len() > 0);
        assert(s.skip(t1).skip(1) =~= s.skip(t1 + 1));
    }
}

/// Glob-match the whole text against the whole pattern with the linear
/// two-pointer algorithm: literal and `?` steps advance both pointers; a `*`
/// records a restart point; a mismatch after a `*` re-tries from one text
/// position further on.
#[verifier::loop_isolation(false)]
#[verifier::rlimit(60)]
fn glob_match_chars(pat: &Vec<char>, s: &Vec<char>) -> (r: bool)
    ensures
        r == glob_match(pat@, s@),
{
    let ghost gp = pat@;
    let ghost gs = s@;
    let ghost goal = glob_match(gp, gs);
    let mut i: usize = 0;
    let mut j: usize = 0;
    let mut star: Option<usize> = None;
    let mut k: usize = 0;
    proof {
        assert(gp.skip(0) =~= gp);
        assert(gs.skip(0) =~= gs);
    }
    while j < s.len()
        invariant
            i <= pat.len(),
            j <= s.len(),
            k <= j,
            match star {
                Some(st) => st < i <= pat.len() && gp[st as int] == '*' && i - st - 1 == j - k
                    && (forall|d: int| st < d < i ==> gp[d] != '*'),
                None => true,
            },
            goal == (glob_match(gp.skip(i as int), gs.skip(j as int)) || (match star {
                Some(st) => k + 1 <= gs.len() && glob_match(
                    gp.skip(st as int),
                    gs.skip(k as int + 1),
                ),
                None => false,
            })),
        decreases s.len() - k, s.len() - j, pat.len() - i,
    {
        proof {
            if i < pat.len() {
                assert(gp.skip(i as int)[0] == gp[i as int]);
                assert(gp.skip(i as int).skip(1) =~= gp.skip(i as int + 1));
            }
            assert(gs.skip(j as int)[0] == gs[j as int]);
            assert(gs.skip(j as int).skip(1) =~= gs.skip(j as int + 1));
        }
        if i < pat.len() && pat[i] == '*' {
            proof {
                if let Some(st) = star {
                    if k + 1 <= gs.len() && glob_match(
                        gp.skip(st as int),
                        gs.skip(k as int + 1),
                    ) {
                    // The old restart option is subsumed: whatever the old
                    // star would still absorb, the new star can absorb too.
                    lemma_star_elim(gp.skip(st as int), gs.skip(k as int + 1));
                    let m = choose|m: int|
                        0 <= m <= gs.skip(k as int + 1).len() && #[trigger] glob_match(
                            gp.skip(st as int).skip(1),
                            gs.skip(k as int + 1).skip(m),
                        );
                    assert(gp.skip(st as int).skip(1) =~= gp.skip(st as int + 1));
                    assert(gs.skip(k as int + 1).skip(m) =~= gs.skip(k + 1 + m));
                    let seg = i - st - 1;
                    assert(forall|d: int| 0 <= d < seg ==> #[trigger] gp.skip(st as int + 1)[d] != '*');
                    lemma_starfree_forced(gp.skip(st as int + 1), gs.skip(k + 1 + m), seg as int);
                    assert(gp.skip(st as int + 1).skip(seg as int) =~= gp.skip(i as int));
                    assert(gs.skip(k + 1 + m).skip(seg as int) =~= gs.skip(k + 1 + m + seg));
                    assert(k + 1 + m + seg == j + 1 + m);
                    lemma_star_monotonic(gp.skip(i as int), gs, j as int, j + 1 + m);
                    }
                }
                assert(goal == (glob_match(gp.skip(i as int + 1), gs.skip(j as int)) || (j + 1
                    <= gs.len() && glob_match(gp.skip(i as int), gs.skip(j as int + 1)))));
            }
            star = Some(i);
            k = j;
            i = i + 1;
        } else if i < pat.len() && (pat[i] == '?' || pat[i] == s[j]) {
            i = i + 1;
            j = j + 1;
        } else {
            match star {
                Some(st) => {
                    proof {
                        assert(!glob_match(gp.skip(i as int), gs.skip(j as int)));
                        assert(gp.skip(st as int)[0] == gp[st as int]);
                        assert(gp.skip(st as int).skip(1) =~= gp.skip(st as int + 1));
                        assert(gs.skip(k as int + 1)[0] == gs[k as int + 1] || gs.skip(
                            k as int + 1,
                        ).len() == 0);
                        if k + 2 <= gs.len() {
                            assert(gs.skip(k as int + 1).skip(1) =~= gs.skip(k as int + 2));
                        }
                    }
                    k = k + 1;
                    j = k;
                    i = st + 1;
                },
                None => {
                    return false;
                },
            }
        }
    }
    proof {
        // At the end of the text, the restart option cannot succeed: the
        // star-free segment after the star no longer fits the shorter tail.
        if let Some(st) = star {
            if k + 1 <= gs.len() && glob_match(
                gp.skip(st as int),
                gs.skip(k as int + 1),
            ) {
            lemma_star_elim(gp.skip(st as int), gs.skip(k as int + 1));
            let m = choose|m: int|
                0 <= m <= gs.skip(k as int + 1).len() && #[trigger] glob_match(
                    gp.skip(st as int).skip(1),
                    gs.skip(k as int + 1).skip(m),
                );
            assert(gp.skip(st as int).skip(1) =~= gp.skip(st as int + 1));
            assert(gs.skip(k as int + 1).skip(m) =~= gs.skip(k + 1 + m));
            let seg = i - st - 1;
            assert(forall|d: int| 0 <= d < seg ==> #[trigger] gp.skip(st as int + 1)[d] != '*');
            lemma_starfree_forced(gp.skip(st as int + 1), gs.skip(k + 1 + m), seg as int);
            assert(gs.skip(k + 1 + m).len() < seg);
            assert(false);
            }
        }
        assert(goal == glob_match(gp.skip(i as int), gs.skip(j as int)));
    }
    while i < pat.len() && pat[i] == '*'
        invariant
            i <= pat.len(),
            j == s.len(),
            goal == glob_match(gp.skip(i as int), gs.skip(j as int)),
        decreases pat.len() - i,
    {
        proof {
            assert(gp.skip(i as int)[0] == gp[i as int]);
            assert(gp.skip(i as int).skip(1) =~= gp.skip(i as int + 1));
            assert(gs.skip(j as int).len() == 0);
        }
        i = i + 1;
    }
    proof {
        if i < pat.len() {
            assert(gp.skip(i as int)[0] == gp[i as int]);
            assert(gs.skip(j as int).len() == 0);
            assert(!glob_match(gp.skip(i as int), gs.skip(j as int)));
        } else {
            assert(gp.skip(i as int).len() == 0);
        }
    }
    i == pat.len()
}

/// `pat` occurs in `s` starting exactly at `start`.
fn matches_prefix_at(pat: &Vec<char>, s: &Vec<char>, start: usize) -> (r: bool)
    requires
        start + pat.len() <= s.len(),
    ensures
        r == contains_at(pat@, s@, start as int),
{
    let mut k: usize = 0;
    while k < pat.len()
        invariant
            0 <= k <= pat.len(),
            start + pat.len() <= s.len(),
            forall|m: int| 0 <= m < k ==> pat@[m] == s@[start + m],
        decreases pat.len() - k,
    {
        if pat[k] != s[start + k] {
            proof {
                assert(s@.subrange(start as int, start + pat@.len() as int)[k as int]
                    == s@[start + k]);
            }
            return false;
        }
        k = k + 1;
    }
    proof {
        assert(s@.subrange(start as int, start + pat@.len() as int) =~= pat@);
    }
    true
}

/// Substring containment of `pat` in `s`.
fn contains_substring(pat: &Vec<char>, s: &Vec<char>) -> (r: bool)
    ensures
        r == is_substring(pat@, s@),
{
    if pat.len() > s.len() {
        proof {
            assert(forall|i: int| !contains_at(pat@, s@, i));
        }
        return false;
    }
    if pat.len() == 0 {
        proof {
            assert(s@.subrange(0, 0) =~= pat@);
            assert(contains_at(pat@, s@, 0));
        }
        return true;
    }
    let last = s.len() - pat.len();
    let mut i: usize = 0;
    while i <= last
        invariant
            1 <= pat.len() <= s.len(),
            last == s.len() - pat.len(),
            0 <= i <= last + 1,
            forall|k: int| 0 <= k < i ==> !contains_at(pat@, s@, k),
        decreases last + 1 - i,
    {
        if matches_prefix_at(pat, s, i) {
            proof {
                assert(contains_at(pat@, s@, i as int));
            }
            return true;
        }
        i = i + 1;
    }
    proof {
        assert(forall|k: int| k > last ==> !contains_at(pat@, s@, k));
    }
    false
}

/// Reference wildcard matcher: an empty pattern matches only the empty text,
/// a pattern with `?`/`*` glob-matches the whole text, and any other pattern
/// matches by substring containment.
pub fn wild_match(pat: &str, s: &str) -> (r: bool)
    ensures
        r == wild_matches(pat@, s@),
{
    let pat_chars = str_chars(pat);
    let s_chars = str_chars(s);
    proof {
        assert(pat_chars@.skip(0) =~= pat_chars@);
        assert(s_chars@.skip(0) =~= s_chars@);
    }
    if pat_chars.len() == 0 {
        s_chars.len() == 0
    } else if is_wild_string(pat) {
        glob_match_chars(&pat_chars, &s_chars)
    } else {
        contains_substring(&pat_chars, &s_chars)
    }
}

/// Law: the pattern `*` matches every text, the empty text included.
pub proof fn lemma_star_matches_all(s: Seq<char>)
    ensures
        wild_matches(seq!['*'], s),
    decreases s.len(),
{
    let p = seq!['*'];
    assert(is_wild_char(p[0]));
    assert(p.skip(1) =~= Seq::<char>::empty());
    if s.len() == 0 {
        assert(glob_match(p.skip(1), s));
    } else {
        lemma_star_matches_all(s.skip(1));
        assert(glob_match(p, s.skip(1)));
    }
}

/// Law: the empty pattern matches exactly the empty text.
pub proof fn lemma_empty_pattern(s: Seq<char>)
    ensures
        wild_matches(Seq::<char>::empty(), s) <==> s.len() == 0,
{
}

/// Law: a non-empty pattern without wildcard characters matches a text
/// exactly when it is contained in the text as a substring.
pub proof fn lemma_plain_pattern_is_containment(p: Seq<char>, s: Seq<char>)
    requires
        p.len() > 0,
        !has_wildcards(p),
    ensures
        wild_matches(p, s) <==> is_substring(p, s),
{
}

} // verus!

// ---------------------------------------------------------------------------
// The cache-accelerated matcher: patterns are compiled (characters collected,
// wildcard use noted) once and memoized in a matcher-owned cache.
// ---------------------------------------------------------------------------

verus! {

/// A wildcard matcher that memoizes compiled patterns. Both this matcher and
/// `wild_match` agree on outcome for every input; patterns without wildcard
/// characters bypass the cache and match by substring containment.
pub struct OptimizedWildcardMatcher {
    cache: Vec<(String, Vec<char>, bool)>,
}

impl OptimizedWildcardMatcher {
    /// Every memoized entry holds the characters of its pattern and whether
    /// the pattern uses wildcards.
    pub closed spec fn wf(&self) -> bool {
        forall|i: int|
            0 <= i < self.cache@.len() ==> ((#[trigger] self.cache@[i]).1@ == self.cache@[i].0@
                && self.cache@[i].2 == has_wildcards(self.cache@[i].0@))
    }

    /// The number of memoized patterns.
    pub closed spec fn cache_len(&self) -> nat {
        self.cache@.len()
    }

    /// A matcher with an empty pattern cache.
    pub fn new() -> (m: OptimizedWildcardMatcher)
        ensures
            m.wf(),
            m.cache_len() == 0,
    {
        OptimizedWildcardMatcher { cache: Vec::new() }
    }

    /// Find a memoized pattern.
    #[verifier::loop_isolation(false)]
    fn lookup(&self, pattern: &Vec<char>) -> (r: Option<usize>)
        ensures
            r matches Some(i) ==> i < self.cache@.len() && self.cache@[i as int].0@ == pattern@,
    {
        let mut i: usize = 0;
        while i < self.cache.len()
            invariant
                0 <= i <= self.cache.len(),
            decreases self.cache.len() - i,
        {
            if chars_eq(&self.cache[i].1, pattern) && str_chars(self.cache[i].0.as_str()).len()
                == self.cache[i].1.len() {
                if chars_eq(&str_chars(self.cache[i].0.as_str()), pattern) {
                    return Some(i);
                }
            }
            i = i + 1;
        }
        None
    }

    /// Match a text against a pattern, memoizing compiled wildcard patterns;
    /// agrees with `wild_match` on every input.
    pub fn match_pattern(&mut self, pattern: &str, text: &str) -> (r: bool)
        requires
            old(self).wf(),
        ensures
            final(self).wf(),
            r == wild_matches(pattern@, text@),
    {
        let pat_chars = str_chars(pattern);
        let text_chars = str_chars(text);
        proof {
            assert(pat_chars@.skip(0) =~= pat_chars@);
            assert(text_chars@.skip(0) =~= text_chars@);
        }
        if pat_chars.len() == 0 {
            return text_chars.len() == 0;
        }
        if !is_wild_string(pattern) {
            return contains_substring(&pat_chars, &text_chars);
        }
        match self.lookup(&pat_chars) {
            Some(i) => {
                let entry_chars = &self.cache[i].1;
                glob_match_chars(entry_chars, &text_chars)
            },
            None => {
                let compiled = str_chars(pattern);
                self.cache.push((pattern.to_owned(), compiled, true));
                proof {
                    assert forall|k: int| 0 <= k < self.cache@.len() implies ((
                    #[trigger] self.cache@[k]).1@ == self.cache@[k].0@ && self.cache@[k].2
                        == has_wildcards(self.cache@[k].0@)) by {
                        if k < self.cache@.len() - 1 {
                            assert(self.cache@[k] == old(self).cache@[k]);
                        }
                    }
                }
                glob_match_chars(&pat_chars, &text_chars)
            },
        }
    }

    /// Empty the pattern cache.
    pub fn clear_cache(&mut self)
        ensures
            final(self).wf(),
            final(self).cache_len() == 0,
    {
        self.cache.clear();
    }

    /// The number of memoized patterns.
    pub fn cache_stats(&self) -> (n: usize)
        ensures
            n == self.cache_len(),
    {
        self.cache.len()
    }

    /// Match one text against many patterns independently.
    #[verifier::loop_isolation(false)]
    pub fn batch_match(&mut self, patterns: &Vec<String>, text: &str) -> (r: Vec<bool>)
        requires
            old(self).wf(),
        ensures
            final(self).wf(),
            r@.len() == patterns@.len(),
            forall|i: int|
                0 <= i < patterns@.len() ==> r@[i] == wild_matches(
                    (#[trigger] patterns@[i])@,
                    text@,
                ),
    {
        let mut r: Vec<bool> = Vec::new();
        let mut i: usize = 0;
        while i < patterns.len()
            invariant
                0 <= i <= patterns.len(),
                self.wf(),
                r@.len() == i,
                forall|k: int|
                    0 <= k < i ==> r@[k] == wild_matches((#[trigger] patterns@[k])@, text@),
            decreases patterns.len() - i,
        {
            let m = self.match_pattern(patterns[i].as_str(), text);
            r.push(m);
            i = i + 1;
        }
        r
    }

    /// Compile several patterns into one reusable batch matcher; pattern
    /// compilation cannot fail.
    pub fn create_batch_matcher(patterns: &Vec<String>) -> (m: BatchMatcher)
        ensures
            m.pat_views() == patterns@.map_values(|p: String| p@),
    {
        let mut held: Vec<String> = Vec::new();
        let mut i: usize = 0;
        while i < patterns.len()
            invariant
                0 <= i <= patterns.len(),
                held@.len() == i,
                forall|k: int| 0 <= k < i ==> (#[trigger] held@[k])@ == patterns@[k]@,
            decreases patterns.len() - i,
        {
            held.push(patterns[i].clone());
            i = i + 1;
        }
        let m = BatchMatcher { patterns: held };
        proof {
            assert(m.pat_views() =~= patterns@.map_values(|p: String| p@));
        }
        m
    }
}

/// Are two character vectors equal?
fn chars_eq(a: &Vec<char>, b: &Vec<char>) -> (r: bool)
    ensures
        r == (a@ == b@),
{
    if a.len() != b.len() {
        proof {
            assert(a@.len() != b@.len());
        }
        return false;
    }
    let mut i: usize = 0;
    while i < a.len()
        invariant
            0 <= i <= a.len(),
            a.len() == b.len(),
            forall|k: int| 0 <= k < i ==> a@[k] == b@[k],
        decreases a.len() - i,
    {
        if a[i] != b[i] {
            return false;
        }
        i = i + 1;
    }
    proof {
        assert(a@ =~= b@);
    }
    true
}

/// Several patterns compiled together for repeated reuse.
pub struct BatchMatcher {
    patterns: Vec<String>,
}

impl BatchMatcher {
    /// The held patterns, as character sequences.
    pub closed spec fn pat_views(&self) -> Seq<Seq<char>> {
        self.patterns@.map_values(|p: String| p@)
    }

    /// The indices of the patterns the text matches, in ascending order.
    #[verifier::loop_isolation(false)]
    pub fn match_all(&self, text: &str) -> (r: Vec<usize>)
        ensures
            forall|j: int|
                0 <= j < r@.len() ==> (#[trigger] r@[j]) < self.pat_views().len() && wild_matches(
                    self.pat_views()[r@[j] as int],
                    text@,
                ),
            forall|j: int, k: int| 0 <= j < k < r@.len() ==> r@[j] < r@[k],
            forall|i: int|
                0 <= i < self.pat_views().len() && wild_matches(
                    #[trigger] self.pat_views()[i],
                    text@,
                ) ==> r@.contains(i as usize),
    {
        let mut r: Vec<usize> = Vec::new();
        let mut i: usize = 0;
        while i < self.patterns.len()
            invariant
                0 <= i <= self.patterns.len(),
                forall|j: int|
                    0 <= j < r@.len() ==> (#[trigger] r@[j]) < i && wild_matches(
                        self.pat_views()[r@[j] as int],
                        text@,
                    ),
                forall|j: int, k: int| 0 <= j < k < r@.len() ==> r@[j] < r@[k],
                forall|k: int|
                    0 <= k < i && wild_matches(#[trigger] self.pat_views()[k], text@)
                        ==> r@.contains(k as usize),
            decreases self.patterns.len() - i,
        {
            let m = wild_match(self.patterns[i].as_str(), text);
            let ghost r0 = r@;
            if m {
                r.push(i);
                proof {
                    assert(r@[r@.len() - 1] == i);
                    assert forall|k: int|
                        0 <= k < i + 1 && wild_matches(
                            #[trigger] self.pat_views()[k],
                            text@,
                        ) implies r@.contains(k as usize) by {
                        if k < i {
                            let j = choose|j: int| 0 <= j < r0.len() && r0[j] == k as usize;
                            assert(r@[j] == k as usize);
                        } else {
                            assert(r@[r@.len() - 1] == k as usize);
                        }
                    }
                }
            } else {
                proof {
                    assert forall|k: int|
                        0 <= k < i + 1 && wild_matches(
                            #[trigger] self.pat_views()[k],
                            text@,
                        ) implies r@.contains(k as usize) by {
                        assert(k != i);
                    }
                }
            }
            i = i + 1;
        }
        r
    }

    /// Does the text match any held pattern?
    #[verifier::loop_isolation(false)]
    pub fn matches_any(&self, text: &str) -> (r: bool)
        ensures
            r == exists|i: int|
                0 <= i < self.pat_views().len() && wild_matches(
                    #[trigger] self.pat_views()[i],
                    text@,
                ),
    {
        let mut i: usize = 0;
        while i < self.patterns.len()
            invariant
                0 <= i <= self.patterns.len(),
                forall|k: int| 0 <= k < i ==> !wild_matches(#[trigger] self.pat_views()[k], text@),
            decreases self.patterns.len() - i,
        {
            if wild_match(self.patterns[i].as_str(), text) {
                proof {
                    assert(wild_matches(self.pat_views()[i as int], text@));
                }
                return true;
            }
            i = i + 1;
        }
        false
    }

    /// The patterns this matcher was created with.
    pub fn patterns(&self) -> (r: &Vec<String>)
        ensures
            r@.map_values(|p: String| p@) == self.pat_views(),
    {
        &self.patterns
    }
}

} // verus!
