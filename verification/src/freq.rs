//! CPU frequency policies: the files of a cpufreq policy directory, the
//! list of frequencies it offers, what is written to set a bound, and the
//! map of policies.

use vstd::prelude::*;

use std::collections::HashMap;

use crate::text::{
    chars_of, decimal_chars, lemma_decimal_chars_value, lemma_words_of_digits, unsigned_digits, format_decimal, join_path, joined, parse_usize, parses_as_usize,
    split_words, usize_value, views, words, is_white, lemma_words_split,
};

verus! {

broadcast use vstd::std_specs::hash::group_hash_axioms;

/// The files of one cpufreq policy and the frequencies it offers.
pub struct FreqInfo {
    pub policy_path: String,
    pub max_freq_file: String,
    pub min_freq_file: String,
    pub freq_list: Vec<usize>,
}

/// A write to perform: `content` into the file `file`.
pub struct FreqWrite {
    pub file: String,
    pub content: String,
}

/// Every word of the text of `scaling_available_frequencies` parses as a
/// `usize`.
pub open spec fn freq_list_readable(text: Seq<char>) -> bool {
    forall|i: int| 0 <= i < words(text).len() ==> parses_as_usize(#[trigger] words(text)[i])
}

/// The frequencies that the text of `scaling_available_frequencies` lists,
/// in order.
pub open spec fn freq_values(text: Seq<char>) -> Seq<usize> {
    words(text).map_values(|w: Seq<char>| usize_value(w) as usize)
}

/// Whether `parse_freq_list` accepts `text` (elsewhere the daemon stops).
pub fn freq_list_is_readable(text: &str) -> (r: bool)
    ensures
        r == freq_list_readable(text@),
{
    let cs = chars_of(text);
    let ws = split_words(&cs);
    let mut i: usize = 0;
    while i < ws.len()
        invariant
            i <= ws.len(),
            views(ws@) == words(text@),
            forall|j: int| 0 <= j < i ==> parses_as_usize(#[trigger] words(text@)[j]),
        decreases ws.len() - i,
    {
        assert(words(text@)[i as int] == ws@[i as int]@);
        if parse_usize(&ws[i]).is_none() {
            return false;
        }
        i += 1;
    }
    true
}

/// The frequencies listed in the text of `scaling_available_frequencies`:
/// its whitespace-separated words, each parsed as a `usize`.
pub fn parse_freq_list(text: &str) -> (r: Vec<usize>)
    requires
        freq_list_readable(text@),
    ensures
        r@ == freq_values(text@),
{
    let cs = chars_of(text);
    let ws = split_words(&cs);
    let mut r: Vec<usize> = Vec::new();
    let mut i: usize = 0;
    while i < ws.len()
        invariant
            i <= ws.len(),
            views(ws@) == words(text@),
            freq_list_readable(text@),
            r@ == freq_values(text@).take(i as int),
        decreases ws.len() - i,
    {
        assert(words(text@)[i as int] == ws@[i as int]@);
        assert(parses_as_usize(words(text@)[i as int]));
        let v = match parse_usize(&ws[i]) {
            Some(v) => v,
            None => 0,
        };
        r.push(v);
        assert(r@ =~= freq_values(text@).take(i + 1));
        i += 1;
    }
    assert(freq_values(text@).take(ws.len() as int) =~= freq_values(text@));
    r
}

/// The file that lists the frequencies a policy offers.
pub fn available_frequencies_path(policy_path: &str) -> (r: String)
    ensures
        r@ == joined(policy_path@, "scaling_available_frequencies"@),
{
    join_path(policy_path, "scaling_available_frequencies")
}

impl FreqInfo {
    /// The policy in the directory `policy_path`, given the text of its
    /// `scaling_available_frequencies` file, or `None` where that file could
    /// not be read (then it offers no frequency).
    pub fn new(policy_path: &str, available: Option<&str>) -> (r: FreqInfo)
        requires
            available matches Some(text) ==> freq_list_readable(text@),
        ensures
            r.policy_path@ == policy_path@,
            r.max_freq_file@ == joined(policy_path@, "scaling_max_freq"@),
            r.min_freq_file@ == joined(policy_path@, "scaling_min_freq"@),
            r.freq_list@ == match available {
                Some(text) => freq_values(text@),
                None => Seq::<usize>::empty(),
            },
    {
        let max_freq_file = join_path(policy_path, "scaling_max_freq");
        let min_freq_file = join_path(policy_path, "scaling_min_freq");
        let freq_list = match available {
            Some(text) => parse_freq_list(text),
            None => Vec::new(),
        };
        FreqInfo { policy_path: policy_path.to_owned(), max_freq_file, min_freq_file, freq_list }
    }

    /// The write that sets the policy's highest frequency to `freq`.
    pub fn max_freq_write(&self, freq: usize) -> (w: FreqWrite)
        ensures
            w.file@ == self.max_freq_file@,
            w.content@ == decimal_chars(freq as nat),
    {
        FreqWrite { file: self.max_freq_file.clone(), content: format_decimal(freq) }
    }

    /// The write that sets the policy's lowest frequency to `freq`.
    pub fn min_freq_write(&self, freq: usize) -> (w: FreqWrite)
        ensures
            w.file@ == self.min_freq_file@,
            w.content@ == decimal_chars(freq as nat),
    {
        FreqWrite { file: self.min_freq_file.clone(), content: format_decimal(freq) }
    }
}

/// The cpufreq policies, by key. Every policy is filed under the key 1, so
/// the map holds the last one found.
pub struct PolicyInfo {
    policy_map: HashMap<i8, FreqInfo>,
}

/// The map that filing `infos` one after the other under the key 1 leaves.
pub open spec fn policy_map_of(infos: Seq<FreqInfo>) -> Map<i8, FreqInfo> {
    if infos.len() == 0 {
        Map::empty()
    } else {
        map![1i8 => infos.last()]
    }
}

impl PolicyInfo {
    /// The policies, by key.
    pub closed spec fn policies(&self) -> Map<i8, FreqInfo> {
        self.policy_map@
    }

    /// Files each policy of `infos`, in order, under the key 1.
    pub fn new(infos: Vec<FreqInfo>) -> (p: PolicyInfo)
        ensures
            p.policies() == policy_map_of(infos@),
    {
        let ghost all = infos@;
        let mut infos = infos;
        let n = infos.len();
        assert(all.len() == n);
        let mut policy_map: HashMap<i8, FreqInfo> = HashMap::new();
        let mut k: usize = 0;
        while infos.len() > 0
            invariant
                k + infos@.len() == all.len(),
                all.len() <= usize::MAX,
                infos@ == all.skip(k as int),
                policy_map@ == policy_map_of(all.take(k as int)),
            decreases infos.len(),
        {
            let info = infos.remove(0);
            assert(info == all[k as int]);
            policy_map.insert(1, info);
            assert(all.take(k + 1).last() == info);
            assert(infos@ =~= all.skip(k + 1));
            assert(policy_map@ =~= policy_map_of(all.take(k + 1)));
            k += 1;
        }
        assert(all.take(k as int) =~= all);
        PolicyInfo { policy_map }
    }

    /// The number of policies in the map.
    pub fn len(&self) -> (n: usize)
        ensures
            n == self.policies().len(),
    {
        self.policy_map.len()
    }

    /// The policy filed under `key`, if any.
    pub fn get(&self, key: i8) -> (r: Option<&FreqInfo>)
        ensures
            match r {
                Some(info) => self.policies().contains_key(key) && *info == self.policies()[key],
                None => !self.policies().contains_key(key),
            },
    {
        self.policy_map.get(&key)
    }
}


/// Filing any number of policies leaves at most one, under the key 1:
/// the last one filed.
pub proof fn lemma_policy_map_holds_last(infos: Seq<FreqInfo>)
    ensures
        policy_map_of(infos).len() <= 1,
        forall|k: i8| #[trigger] policy_map_of(infos).contains_key(k) ==> k == 1,
        infos.len() > 0 ==> policy_map_of(infos).contains_key(1) && policy_map_of(infos)[1]
            == infos.last(),
{
    if infos.len() > 0 {
        assert(policy_map_of(infos).dom() =~= set![1i8]);
        assert(set![1i8].len() == 1) by {
            assert(set![1i8] =~= Set::<i8>::empty().insert(1i8));
        }
    } else {
        assert(policy_map_of(infos).dom() =~= Set::<i8>::empty());
    }
}

/// What is written to set a frequency bound reads back, as a frequency
/// list, as exactly that frequency.
pub proof fn lemma_freq_write_reads_back(freq: usize)
    ensures
        freq_list_readable(decimal_chars(freq as nat)),
        freq_values(decimal_chars(freq as nat)) == seq![freq],
{
    let s = decimal_chars(freq as nat);
    lemma_decimal_chars_value(freq as nat);
    lemma_words_of_digits(s);
    assert(unsigned_digits(s) == s);
    assert(freq_values(s) =~= seq![freq]);
}


/// The list has one frequency per word of the file, in order: entry `i`
/// is the value of word `i`.
pub proof fn lemma_freq_values_per_word(text: Seq<char>)
    requires
        freq_list_readable(text),
    ensures
        freq_values(text).len() == words(text).len(),
        forall|i: int|
            0 <= i < words(text).len() ==> freq_values(text)[i] as int == usize_value(
                #[trigger] words(text)[i],
            ),
{
    assert forall|i: int| 0 <= i < words(text).len() implies freq_values(text)[i] as int
        == usize_value(#[trigger] words(text)[i]) by {
        assert(parses_as_usize(words(text)[i]));
    }
}

/// The list of two texts joined by whitespace is the list of the first
/// followed by the list of the second, and it can be read exactly when
/// both can.
pub proof fn lemma_freq_values_concat(a: Seq<char>, c: char, b: Seq<char>)
    requires
        is_white(c),
    ensures
        freq_values(a + seq![c] + b) == freq_values(a) + freq_values(b),
        freq_list_readable(a + seq![c] + b) <==> (freq_list_readable(a) && freq_list_readable(
            b,
        )),
{
    let t = a + seq![c] + b;
    lemma_words_split(a, c, b);
    assert(freq_values(t) =~= freq_values(a) + freq_values(b));
    let wa = words(a);
    let wb = words(b);
    if freq_list_readable(a) && freq_list_readable(b) {
        assert forall|i: int| 0 <= i < words(t).len() implies parses_as_usize(
            #[trigger] words(t)[i],
        ) by {
            if i < wa.len() {
                assert(words(t)[i] == wa[i]);
                assert(parses_as_usize(words(a)[i]));
            } else {
                assert(words(t)[i] == wb[i - wa.len()]);
                assert(parses_as_usize(words(b)[i - wa.len()]));
            }
        }
    }
    if freq_list_readable(t) {
        assert forall|i: int| 0 <= i < wa.len() implies parses_as_usize(#[trigger] words(a)[i]) by {
            assert(words(t)[i] == wa[i]);
            assert(parses_as_usize(words(t)[i]));
        }
        assert forall|i: int| 0 <= i < wb.len() implies parses_as_usize(#[trigger] words(b)[i]) by {
            assert(words(t)[i + wa.len()] == wb[i]);
            assert(parses_as_usize(words(t)[i + wa.len()]));
        }
    }
}

} // verus!
