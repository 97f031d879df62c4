//! Flat string key/value records.

use vstd::prelude::*;
use vstd::string::{StringExecFns, StrSliceExecFns};

verus! {

/// A collection of string key/value pairs, each key held at most once.
#[derive(Debug, PartialEq, Clone)]
pub struct PropertyPairs {
    /// The entries, keyed by the first string.
    pub pairs: Vec<(String, String)>,
}

/// The mapping a sequence of entries stands for; a later entry for the same
/// key overrides an earlier one.
pub open spec fn props_map(s: Seq<(String, String)>) -> Map<Seq<char>, Seq<char>>
    decreases s.len(),
{
    if s.len() == 0 {
        Map::empty()
    } else {
        props_map(s.drop_last()).insert(s.last().0@, s.last().1@)
    }
}

impl View for PropertyPairs {
    type V = Map<Seq<char>, Seq<char>>;

    open spec fn view(&self) -> Map<Seq<char>, Seq<char>> {
        props_map(self.pairs@)
    }
}

impl PropertyPairs {
    /// No key appears twice.
    pub open spec fn wf(&self) -> bool {
        forall|i: int, j: int|
            0 <= i < j < self.pairs@.len() ==> (#[trigger] self.pairs@[i]).0@ != (
            #[trigger] self.pairs@[j]).0@
    }

    /// Creates an empty collection.
    pub fn new() -> (r: Self)
        ensures
            r@ == Map::<Seq<char>, Seq<char>>::empty(),
            r.wf(),
    {
        let r = Self { pairs: Vec::new() };
        proof {
            assert(r@ =~= Map::<Seq<char>, Seq<char>>::empty());
        }
        r
    }

    /// Creates an empty collection with room reserved for about the passed
    /// number of entries.
    pub fn with_capacity(capacity: usize) -> (r: Self)
        ensures
            r@ == Map::<Seq<char>, Seq<char>>::empty(),
            r.wf(),
    {
        let r = Self { pairs: Vec::with_capacity(capacity) };
        proof {
            assert(r@ =~= Map::<Seq<char>, Seq<char>>::empty());
        }
        r
    }

    /// Returns the value recorded for the passed key, if any.
    pub fn get(&self, key: &String) -> (r: Option<&String>)
        requires
            self.wf(),
        ensures
            self@.contains_key(key@) ==> (r matches Some(v) && v@ == self@[key@]),
            !self@.contains_key(key@) ==> r is None,
    {
        let ghost s = self.pairs@;
        let n = self.pairs.len();
        let mut i: usize = 0;
        while i < n
            invariant
                n == s.len(),
                i <= n,
                s == self.pairs@,
                self.wf(),
                forall|k: int| 0 <= k < i ==> (#[trigger] s[k]).0@ != key@,
            decreases n - i,
        {
            if self.pairs[i].0.eq(key) {
                proof {
                    lemma_props_map_found(s, i as int, key@);
                }
                return Some(&self.pairs[i].1);
            }
            i = i + 1;
        }
        proof {
            lemma_props_map_absent(s, key@);
        }
        None
    }

    /// Records a value for a key, returning the value previously recorded,
    /// if any.
    pub fn insert(&mut self, key: String, value: String) -> (r: Option<String>)
        requires
            old(self).wf(),
        ensures
            final(self).wf(),
            final(self)@ == old(self)@.insert(key@, value@),
            old(self)@.contains_key(key@) ==> (r matches Some(v) && v@ == old(self)@[key@]),
            !old(self)@.contains_key(key@) ==> r is None,
    {
        let ghost s = self.pairs@;
        let n = self.pairs.len();
        let mut i: usize = 0;
        while i < n
            invariant
                n == s.len(),
                i <= n,
                *self == *old(self),
                s == self.pairs@,
                self.wf(),
                forall|k: int| 0 <= k < i ==> (#[trigger] s[k]).0@ != key@,
            decreases n - i,
        {
            if self.pairs[i].0.eq(&key) {
                proof {
                    lemma_props_map_found(s, i as int, key@);
                }
                let prev = self.pairs.remove(i);
                self.pairs.insert(i, (key, value));
                proof {
                    let s1 = self.pairs@;
                    assert(s1 =~= s.update(i as int, s1[i as int]));
                    lemma_props_map_update(s, i as int, s1[i as int]);
                    assert(props_map(s1) =~= props_map(s).insert(s1[i as int].0@, value@));
                }
                return Some(prev.1);
            }
            i = i + 1;
        }
        proof {
            lemma_props_map_absent(s, key@);
        }
        self.pairs.push((key, value));
        proof {
            let s1 = self.pairs@;
            assert(s1.drop_last() =~= s);
            assert(props_map(s1) =~= props_map(s).insert(s1.last().0@, value@));
        }
        None
    }
}

/// With unique keys, the entry found at `i` is the map's value for its key.
proof fn lemma_props_map_found(s: Seq<(String, String)>, i: int, name: Seq<char>)
    requires
        0 <= i < s.len(),
        s[i].0@ == name,
        forall|a: int, b: int| 0 <= a < b < s.len() ==> (#[trigger] s[a]).0@ != (#[trigger] s[b]).0@,
    ensures
        props_map(s).contains_key(name),
        props_map(s)[name] == s[i].1@,
    decreases s.len(),
{
    if i + 1 < s.len() {
        assert(forall|k: int| 0 <= k < s.drop_last().len() ==> #[trigger] s.drop_last()[k] == s[k]);
        lemma_props_map_found(s.drop_last(), i, name);
        assert(s.last().0@ != name);
    } else {
        assert(s.last() == s[i]);
    }
}

/// A key held by no entry is not in the map.
proof fn lemma_props_map_absent(s: Seq<(String, String)>, name: Seq<char>)
    requires
        forall|k: int| 0 <= k < s.len() ==> (#[trigger] s[k]).0@ != name,
    ensures
        !props_map(s).contains_key(name),
    decreases s.len(),
{
    if s.len() > 0 {
        assert(forall|k: int| 0 <= k < s.drop_last().len() ==> #[trigger] s.drop_last()[k] == s[k]);
        lemma_props_map_absent(s.drop_last(), name);
    }
}

/// Replacing the entry at `i`, under unique keys and an unchanged key,
/// updates exactly that key's value.
proof fn lemma_props_map_update(s: Seq<(String, String)>, i: int, x: (String, String))
    requires
        0 <= i < s.len(),
        x.0@ == s[i].0@,
        forall|a: int, b: int| 0 <= a < b < s.len() ==> (#[trigger] s[a]).0@ != (#[trigger] s[b]).0@,
    ensures
        props_map(s.update(i, x)) =~= props_map(s).insert(x.0@, x.1@),
    decreases s.len(),
{
    let s1 = s.update(i, x);
    if i + 1 < s.len() {
        assert(forall|k: int| 0 <= k < s.drop_last().len() ==> #[trigger] s.drop_last()[k] == s[k]);
        lemma_props_map_update(s.drop_last(), i, x);
        assert(s1.drop_last() =~= s.drop_last().update(i, x));
        assert(s1.last() == s.last());
        assert(s.last().0@ != x.0@) by {
            assert(s[i].0@ == x.0@);
        }
        assert(props_map(s1) =~= props_map(s).insert(x.0@, x.1@));
    } else {
        assert(s1.drop_last() =~= s.drop_last());
        assert(s1.last() == x);
        assert(props_map(s1) =~= props_map(s).insert(x.0@, x.1@));
    }
}

/// A `Properties` is a collection of string pairs that can be carried to
/// and from a flat text record.
#[derive(Debug, PartialEq, Clone)]
pub struct Properties {
    /// The key/value pairs.
    pub props: PropertyPairs,
}

/// The map after the pairs from index `i` on have been recorded in order,
/// overwriting existing keys.
pub open spec fn absorbed_map(
    m: Map<Seq<char>, Seq<char>>,
    s: Seq<(String, String)>,
    i: int,
) -> Map<Seq<char>, Seq<char>>
    decreases s.len() - i,
{
    if i < 0 || i >= s.len() {
        m
    } else {
        absorbed_map(m.insert(s[i].0@, s[i].1@), s, i + 1)
    }
}

impl Properties {
    /// Adds all the passed pairs to this `Properties`, in order, overwriting
    /// existing entries for the same key.
    pub fn absorb(&mut self, pairs: Vec<(String, String)>)
        requires
            old(self).props.wf(),
        ensures
            final(self).props.wf(),
            final(self).props@ == absorbed_map(old(self).props@, pairs@, 0),
    {
        let mut pairs = pairs;
        let ghost ps = pairs@;
        let n = pairs.len();
        let mut i: usize = 0;
        proof {
            assert(pairs@ =~= ps.subrange(0, n as int));
        }
        while i < n
            invariant
                n == ps.len(),
                i <= n,
                pairs@ == ps.subrange(i as int, n as int),
                self.props.wf(),
                absorbed_map(old(self).props@, ps, 0) == absorbed_map(
                    self.props@,
                    ps,
                    i as int,
                ),
            decreases n - i,
        {
            proof {
                assert(pairs@[0] == ps[i as int]);
            }
            let pair = pairs.remove(0);
            proof {
                assert(pairs@ =~= ps.subrange(i as int + 1, n as int));
            }
            self.props.insert(pair.0, pair.1);
            i = i + 1;
        }
    }
}


/// The first index at or after `i` holding a line break; the text's length
/// when there is none.
pub open spec fn find_nl(s: Seq<char>, i: int) -> int
    decreases s.len() - i,
{
    if i < 0 || i >= s.len() {
        s.len() as int
    } else if s[i] == '\n' {
        i
    } else {
        find_nl(s, i + 1)
    }
}

/// The index where a line ends once a trailing carriage return is dropped.
pub open spec fn strip_cr(s: Seq<char>, start: int, end: int) -> int {
    if end > start && s[end - 1] == '\r' {
        end - 1
    } else {
        end
    }
}

/// The first index in `[i, end)` where the three-character separator of a
/// record line begins; `end` when there is none.
pub open spec fn find_sep(s: Seq<char>, i: int, end: int) -> int
    decreases end - i,
{
    if i + 3 > end {
        end
    } else if s[i] == ' ' && s[i + 1] == ':' && s[i + 2] == ' ' {
        i
    } else {
        find_sep(s, i + 1, end)
    }
}

/// The key and value a record line holds: the text before the first
/// separator and the text between the first and second separators.  A line
/// without a separator is a key with an empty value.
pub open spec fn line_pair(s: Seq<char>, start: int, end: int) -> (Seq<char>, Seq<char>) {
    let k = find_sep(s, start, end);
    if k == end {
        (s.subrange(start, end), Seq::empty())
    } else {
        let value_end = find_sep(s, k + 3, end);
        (s.subrange(start, k), s.subrange(k + 3, value_end))
    }
}

/// The record that the text from index `i` on adds to the map `m`: one
/// key/value pair per line, later lines overriding earlier ones.
pub open spec fn parse_props_from(m: Map<Seq<char>, Seq<char>>, s: Seq<char>, i: int) -> Map<
    Seq<char>,
    Seq<char>,
>
    decreases s.len() + 1 - i,
        when 0 <= i
    via parse_props_from_decreases
{
    if i >= s.len() {
        m
    } else {
        let j = find_nl(s, i);
        let e = strip_cr(s, i, j);
        let pair = line_pair(s, i, e);
        parse_props_from(m.insert(pair.0, pair.1), s, j + 1)
    }
}

#[via_fn]
proof fn parse_props_from_decreases(m: Map<Seq<char>, Seq<char>>, s: Seq<char>, i: int) {
    if 0 <= i < s.len() {
        lemma_find_nl_bounds(s, i);
    }
}

/// A line break is searched for at or after the start, and no further than
/// the end of the text.
pub proof fn lemma_find_nl_bounds(s: Seq<char>, i: int)
    requires
        0 <= i <= s.len(),
    ensures
        i <= find_nl(s, i),
        find_nl(s, i) <= s.len(),
    decreases s.len() - i,
{
    if i < s.len() {
        lemma_find_nl_bounds(s, i + 1);
    }
}

impl Properties {
    /// Reads a flat text record: one key/value pair per line, key and value
    /// separated by a space-colon-space; see [`parse_props_from`].
    pub fn from_text(text: &str) -> (r: Properties)
        ensures
            r.props.wf(),
            r.props@ == parse_props_from(Map::empty(), text@, 0),
    {
        let ghost s = text@;
        let n = text.unicode_len();
        let mut props = PropertyPairs::new();
        let mut i: usize = 0;
        while i < n
            invariant
                n == s.len(),
                s == text@,
                i <= n,
                props.wf(),
                parse_props_from(Map::empty(), s, 0) == parse_props_from(props@, s, i as int),
            decreases n - i,
        {
            let line_start = i;
            let mut j = i;
            while j < n && text.get_char(j) != '\n'
                invariant
                    n == s.len(),
                    s == text@,
                    i <= j <= n,
                    find_nl(s, i as int) == find_nl(s, j as int),
                decreases n - j,
            {
                j = j + 1;
            }
            proof {
                assert(find_nl(s, i as int) == j as int);
            }
            let e = if j > i && text.get_char(j - 1) == '\r' {
                j - 1
            } else {
                j
            };
            proof {
                assert(e as int == strip_cr(s, i as int, j as int));
            }
            let k = scan_sep(text, i, e);
            let key;
            let value;
            if k < e {
                let value_end = scan_sep(text, k + 3, e);
                key = String::from_str(text.substring_char(i, k));
                value = String::from_str(text.substring_char(k + 3, value_end));
            } else {
                key = String::from_str(text.substring_char(i, e));
                value = String::new();
                proof {
                    assert(value@ =~= line_pair(s, i as int, e as int).1);
                }
            }
            proof {
                assert((key@, value@) == line_pair(s, i as int, e as int));
            }
            props.insert(key, value);
            if j < n {
                i = j + 1;
            } else {
                i = n;
                proof {
                    assert(parse_props_from(props@, s, n as int) == parse_props_from(
                        props@,
                        s,
                        n as int + 1,
                    ));
                }
            }
        }
        proof {
            assert(parse_props_from(props@, s, i as int) == props@);
        }
        Properties { props }
    }
}

/// Finds the first record separator in `[from, end)` of the text, or `end`
/// when there is none; the executable face of [`find_sep`].
fn scan_sep(text: &str, from: usize, end: usize) -> (r: usize)
    requires
        from <= end <= text@.len(),
    ensures
        r == find_sep(text@, from as int, end as int),
        from <= r <= end,
        r < end ==> r + 3 <= end,
    decreases end - from,
{
    let ghost s = text@;
    let mut k = from;
    while k < end && end - k >= 3 && !(text.get_char(k) == ' ' && text.get_char(k + 1) == ':'
        && text.get_char(k + 2) == ' ')
        invariant
            from <= k <= end,
            end <= s.len(),
            s == text@,
            find_sep(s, from as int, end as int) == find_sep(s, k as int, end as int),
        decreases end - k,
    {
        k = k + 1;
    }
    if k < end && end - k >= 3 {
        k
    } else {
        proof {
            assert(find_sep(s, k as int, end as int) == end);
        }
        end
    }
}

} // verus!
