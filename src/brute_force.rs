//! The sequencer: an odometer over alphabet indices that yields every string
//! of the shortlex order in turn.
use crate::order::{
    count_shorter,
    digits_valid,
    index_in,
    lemma_digits_at_position_of,
    lemma_index_in,
    lemma_successor,
    lemma_successor_carry,
    nth_string,
    position_of,
    resume_digits,
    spell,
    successor,
    zeros,
};
use crate::laws::{lemma_resume_yields_start, lemma_skip_position};
use vstd::prelude::*;

verus! {

/// Why a sequencer could not be built or advanced.
#[derive(Debug, Clone, Copy, PartialEq, Eq)]
pub enum BruteForceError {
    /// The alphabet has no character, so no string past the empty one exists.
    EmptyAlphabet,
    /// The start string holds a character that the alphabet lacks; `position`
    /// is its index among the start string's characters.
    InvalidResumeCharacter { character: char, position: usize },
}

/// A brute-forcing instance: yields every string over `chars`, shortest
/// first, and within one length in the order of alphabet indices.
#[derive(Debug, Clone)]
pub struct BruteForce {
    /// The alphabet of the generated strings.
    pub chars: Vec<char>,
    /// The string produced last.
    pub current: String,
    /// The digit vector of the next string, least significant first: each
    /// element is an index into `chars`.
    raw_current: Vec<usize>,
}

/// Relies on String::clear: the string becomes empty.
#[verifier::external_body]
fn clear_string(s: &mut String)
    ensures
        final(s)@ == Seq::<char>::empty(),
{
    s.clear()
}

/// Relies on String::push: the character is appended at the end.
#[verifier::external_body]
fn push_char(s: &mut String, c: char)
    ensures
        final(s)@ == old(s)@.push(c),
{
    s.push(c)
}

/// The index of the first occurrence of `c` in `chars`, or `chars.len()`.
fn find_index(chars: &Vec<char>, c: char) -> (r: usize)
    ensures
        r == index_in(chars@, c),
        r <= chars.len(),
        r < chars.len() <==> chars@.contains(c),
{
    let mut i: usize = 0;
    while i < chars.len()
        invariant
            i <= chars.len(),
            forall|j: int| 0 <= j < i ==> chars@[j] != c,
        decreases chars.len() - i,
    {
        if chars[i] == c {
            proof {
                lemma_index_in(chars@, c, i as int);
            }
            return i;
        }
        i = i + 1;
    }
    proof {
        lemma_index_in(chars@, c, i as int);
    }
    i
}

impl BruteForce {
    /// The alphabet, as a sequence.
    pub closed spec fn alphabet(&self) -> Seq<char> {
        self.chars@
    }

    /// The string produced last.
    pub closed spec fn produced(&self) -> Seq<char> {
        self.current@
    }

    /// The digit vector of the next string, as integers.
    pub closed spec fn digits(&self) -> Seq<int> {
        self.raw_current@.map_values(|d: usize| d as int)
    }

    /// The place in the shortlex order of the string that comes next.
    pub closed spec fn position(&self) -> int {
        position_of(self.digits(), self.chars.len() as int)
    }

    /// Each digit indexes the alphabet (vacuous for an empty alphabet, which
    /// can never advance).
    pub closed spec fn wf(&self) -> bool {
        self.chars.len() == 0 || digits_valid(self.digits(), self.chars.len() as int)
    }

    /// A sequencer that starts at the empty string.
    pub fn new(charset: Vec<char>) -> (r: BruteForce)
        ensures
            r.wf(),
            r.alphabet() == charset@,
            r.produced() == Seq::<char>::empty(),
            r.position() == 0,
    {
        let r = BruteForce { chars: charset, current: String::new(), raw_current: Vec::new() };
        assert(r.digits() =~= Seq::<int>::empty());
        r
    }

    /// A sequencer that starts at the first string of length `start`: the
    /// alphabet's first character `start` times.
    pub fn new_at(charset: Vec<char>, start: usize) -> (r: BruteForce)
        ensures
            r.wf(),
            r.alphabet() == charset@,
            r.produced() == Seq::<char>::empty(),
            r.position() == count_shorter(charset.len() as int, start as nat),
    {
        let mut raw: Vec<usize> = Vec::new();
        let mut i: usize = 0;
        while i < start
            invariant
                i <= start,
                raw@.len() == i,
                forall|j: int| 0 <= j < i ==> raw@[j] == 0,
            decreases start - i,
        {
            raw.push(0);
            i = i + 1;
        }
        let r = BruteForce { chars: charset, current: String::new(), raw_current: raw };
        assert(r.digits() =~= zeros(start as nat));
        proof {
            lemma_skip_position(charset.len() as int, start as nat);
        }
        r
    }

    /// A sequencer whose next string is `start_string`. Fails when a
    /// character of `start_string` is not in the alphabet, naming the last
    /// such character and its index.
    pub fn new_by_start_string(charset: Vec<char>, start_string: String) -> (r: Result<
        BruteForce,
        BruteForceError,
    >)
        ensures
            r is Ok <==> (forall|i: int|
                0 <= i < start_string@.len() ==> charset@.contains(#[trigger] start_string@[i])),
            r matches Ok(b) ==> {
                &&& b.wf()
                &&& b.alphabet() == charset@
                &&& b.produced() == Seq::<char>::empty()
                &&& b.position() == position_of(
                    resume_digits(charset@, start_string@),
                    charset.len() as int,
                )
                &&& nth_string(charset@, b.position()) == start_string@
            },
            r matches Err(e) ==> e matches BruteForceError::InvalidResumeCharacter {
                character,
                position,
            } && position < start_string@.len() && start_string@[position as int] == character
                && !charset@.contains(character) && forall|j: int|
                position < j < start_string@.len() ==> charset@.contains(
                    #[trigger] start_string@[j],
                ),
    {
        // Indices in the order of the string; `charset.len()` marks a miss.
        let mut found: Vec<usize> = Vec::new();
        let mut miss: Option<(char, usize)> = None;
        for c in it: start_string.chars()
            invariant
                it.seq() == start_string@,
                found@.len() == it.index(),
                forall|j: int|
                    0 <= j < found@.len() ==> #[trigger] found@[j] == index_in(
                        charset@,
                        start_string@[j],
                    ),
                forall|j: int|
                    0 <= j < found@.len() ==> (found@[j] < charset.len() <==> charset@.contains(
                        #[trigger] start_string@[j],
                    )),
                miss matches Some((ch, p)) ==> {
                    &&& p < found@.len()
                    &&& start_string@[p as int] == ch
                    &&& !charset@.contains(ch)
                    &&& forall|j: int|
                        p < j < found@.len() ==> charset@.contains(#[trigger] start_string@[j])
                },
                miss is None ==> forall|j: int|
                    0 <= j < found@.len() ==> charset@.contains(#[trigger] start_string@[j]),
        {
            let d = find_index(&charset, c);
            assert(start_string@[found@.len() as int] == c);
            if d == charset.len() {
                miss = Some((c, found.len()));
            }
            found.push(d);
        }
        if let Some((character, position)) = miss {
            return Err(BruteForceError::InvalidResumeCharacter { character, position });
        }
        let n = found.len();
        let mut raw: Vec<usize> = Vec::new();
        while raw.len() < n
            invariant
                n == found@.len() == start_string@.len(),
                raw@.len() <= n,
                forall|j: int| 0 <= j < raw@.len() ==> raw@[j] == found@[n - 1 - j],
            decreases n - raw@.len(),
        {
            raw.push(found[n - 1 - raw.len()]);
        }
        let b = BruteForce { chars: charset, current: String::new(), raw_current: raw };
        assert(b.digits() =~= resume_digits(charset@, start_string@));
        proof {
            lemma_resume_yields_start(charset@, start_string@);
        }
        Ok(b)
    }

    /// Produces the next string of the order and advances past it. The
    /// string is written into `current`, whose buffer is reused from call to
    /// call; the returned view of it lasts until the next call. Fails, and
    /// changes nothing, when the alphabet is empty.
    pub fn raw_next(&mut self) -> (r: Result<&str, BruteForceError>)
        requires
            old(self).wf(),
        ensures
            final(self).wf(),
            final(self).alphabet() == old(self).alphabet(),
            old(self).alphabet().len() == 0 ==> {
                &&& r matches Err(e) && e == BruteForceError::EmptyAlphabet
                &&& final(self).position() == old(self).position()
                &&& final(self).produced() == old(self).produced()
            },
            old(self).alphabet().len() > 0 ==> {
                &&& r matches Ok(s) && s@ == nth_string(old(self).alphabet(), old(self).position())
                    && s@ == final(self).produced()
                &&& final(self).position() == old(self).position() + 1
            },
    {
        let k = self.chars.len();
        if k == 0 {
            return Err(BruteForceError::EmptyAlphabet);
        }
        let ghost d = self.digits();
        let ghost a = self.chars@;
        let n = self.raw_current.len();

        // Render, most significant digit first, into the reused buffer.
        clear_string(&mut self.current);
        let mut j: usize = n;
        while j > 0
            invariant
                j <= n == self.raw_current@.len(),
                self.chars.len() == k > 0,
                self.chars@ == a,
                self.digits() == d,
                digits_valid(d, k as int),
                self.current@ == spell(self.chars@, d).subrange(0, n - j),
            decreases j,
        {
            assert(d[j - 1] == self.raw_current@[j - 1] as int);
            let c = self.chars[self.raw_current[j - 1]];
            push_char(&mut self.current, c);
            j = j - 1;
            assert(self.current@ =~= spell(self.chars@, d).subrange(0, n - j));
        }
        assert(self.current@ =~= spell(self.chars@, d));

        // Add one, carrying from the least significant digit up.
        let mut i: usize = 0;
        let mut carry = true;
        while carry && i < n
            invariant
                i <= n,
                n == d.len(),
                self.raw_current@.len() == n,
                self.chars.len() == k > 0,
                self.chars@ == a,
                digits_valid(d, k as int),
                self.current@ == spell(self.chars@, d),
                forall|t: int| 0 <= t < i ==> #[trigger] d[t] + 1 >= k,
                carry ==> forall|t: int|
                    0 <= t < n ==> #[trigger] self.raw_current@[t] as int == if t < i {
                        0
                    } else {
                        d[t]
                    },
                !carry ==> self.digits() == successor(d, k as int),
            decreases n - i, if carry { 1int } else { 0int },
        {
            let v = self.raw_current[i] + 1;
            if v == k {
                self.raw_current.set(i, 0);
                i = i + 1;
            } else {
                self.raw_current.set(i, v);
                carry = false;
                proof {
                    lemma_successor_carry(d, k as int, i as int);
                    let tail = d.subrange(i as int, n as int);
                    assert(tail[0] == d[i as int]);
                    let next = successor(d, k as int);
                    assert(successor(tail, k as int) == tail.update(0, d[i as int] + 1));
                    assert forall|t: int| 0 <= t < n implies #[trigger] self.digits()[t] == next[t] by {
                        if t > i {
                            assert(next[t] == tail[t - i]);
                        }
                    }
                    assert(self.digits() =~= next);
                }
            }
        }
        if carry {
            self.raw_current.push(0);
            proof {
                lemma_successor_carry(d, k as int, n as int);
                assert(d.subrange(n as int, n as int) =~= Seq::<int>::empty());
                let next = successor(d, k as int);
                assert(next.len() == n + 1);
                assert forall|t: int| 0 <= t <= n implies #[trigger] self.digits()[t] == next[t] by {
                    if t < n {
                        assert(self.raw_current@[t] as int == 0);
                    }
                }
                assert(self.digits() =~= next);
            }
        }
        proof {
            lemma_successor(d, k as int);
            lemma_digits_at_position_of(d, k as int);
        }
        Ok(self.current.as_str())
    }

    /// Produces the next string of the order as an owned `String` and
    /// advances past it; `None`, with nothing changed, when the alphabet is
    /// empty.
    pub fn next(&mut self) -> (r: Option<String>)
        requires
            old(self).wf(),
        ensures
            final(self).wf(),
            final(self).alphabet() == old(self).alphabet(),
            old(self).alphabet().len() == 0 ==> {
                &&& r is None
                &&& final(self).position() == old(self).position()
                &&& final(self).produced() == old(self).produced()
            },
            old(self).alphabet().len() > 0 ==> {
                &&& r matches Some(s) && s@ == nth_string(old(self).alphabet(), old(self).position())
                &&& final(self).position() == old(self).position() + 1
            },
    {
        match self.raw_next() {
            Ok(_) => Some(self.current.clone()),
            Err(_) => None,
        }
    }
}

} // verus!
