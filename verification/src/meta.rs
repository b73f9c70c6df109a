//! The metadata block decoder: parses the raw bytes of one assembled ICY
//! metadata block into key/value records.
//!
//! A block is UTF-8 text of the shape `StreamTitle='Artist - Song';...`,
//! padded to a multiple of 16 bytes with NUL bytes. Fields are separated by
//! the two-character sequence `';`, each field's key and value are separated
//! by the first `='`, and every field is trimmed of surrounding whitespace
//! and NUL padding. A field before a `';` loses its terminating quote to the
//! split; when the block's final field lacks the closing `';`, its single
//! terminating quote is dropped instead, so `key='value'` decodes the same
//! wherever it stands. Malformed fields are skipped; only bytes that are not
//! valid UTF-8 are an error.

use vstd::pervasive::VecAdditionalExecFns;
use vstd::prelude::*;
use vstd::string::StrSliceExecFns;
use vstd::utf8::{decode_utf8, valid_utf8};

verus! {

/// Why decoding a metadata block failed.
#[derive(Clone, Copy, Debug, PartialEq, Eq, Structural)]
pub enum DecodeError {
    /// The block's bytes are not valid UTF-8 text.
    InvalidEncoding,
}

/// True for the characters with the Unicode `White_Space` property, the set
/// that `str::trim` removes from the ends of a field.
pub open spec fn is_space(c: char) -> bool {
    let u = c as u32;
    ||| u == 0x09
    ||| u == 0x0A
    ||| u == 0x0B
    ||| u == 0x0C
    ||| u == 0x0D
    ||| u == 0x20
    ||| u == 0x85
    ||| u == 0xA0
    ||| u == 0x1680
    ||| (0x2000 <= u && u <= 0x200A)
    ||| u == 0x2028
    ||| u == 0x2029
    ||| u == 0x202F
    ||| u == 0x205F
    ||| u == 0x3000
}

/// Whether `c` has the Unicode `White_Space` property.
#[verifier::when_used_as_spec(is_space)]
pub fn is_space_char(c: char) -> (r: bool)
    ensures
        r == is_space(c),
{
    let u = c as u32;
    u == 0x09 || u == 0x0A || u == 0x0B || u == 0x0C || u == 0x0D || u == 0x20 || u == 0x85 || u
        == 0xA0 || u == 0x1680 || (0x2000 <= u && u <= 0x200A) || u == 0x2028 || u == 0x2029 || u
        == 0x202F || u == 0x205F || u == 0x3000
}

/// `s` with its longest prefix of whitespace removed.
pub open spec fn trim_start_space(s: Seq<char>) -> Seq<char>
    decreases s.len(),
{
    if s.len() > 0 && is_space(s[0]) {
        trim_start_space(s.drop_first())
    } else {
        s
    }
}

/// `s` with its longest suffix of whitespace removed.
pub open spec fn trim_end_space(s: Seq<char>) -> Seq<char>
    decreases s.len(),
{
    if s.len() > 0 && is_space(s.last()) {
        trim_end_space(s.drop_last())
    } else {
        s
    }
}

/// `s` with its longest prefix of NUL characters removed.
pub open spec fn trim_start_nul(s: Seq<char>) -> Seq<char>
    decreases s.len(),
{
    if s.len() > 0 && s[0] == '\0' {
        trim_start_nul(s.drop_first())
    } else {
        s
    }
}

/// `s` with its longest suffix of NUL characters removed.
pub open spec fn trim_end_nul(s: Seq<char>) -> Seq<char>
    decreases s.len(),
{
    if s.len() > 0 && s.last() == '\0' {
        trim_end_nul(s.drop_last())
    } else {
        s
    }
}

/// One field as the decoder cleans it: surrounding whitespace is trimmed
/// first, then surrounding NUL padding bytes.
pub open spec fn clean_segment(s: Seq<char>) -> Seq<char> {
    trim_end_nul(trim_start_nul(trim_end_space(trim_start_space(s))))
}

/// Index of the first occurrence of the two-character pattern `c0 c1` in `s`
/// at or after `from`, if any.
pub open spec fn find_from(s: Seq<char>, from: int, c0: char, c1: char) -> Option<int>
    decreases s.len() - from,
    when 0 <= from <= s.len()
{
    if from + 2 > s.len() {
        None
    } else if s[from] == c0 && s[from + 1] == c1 {
        Some(from)
    } else {
        find_from(s, from + 1, c0, c1)
    }
}

/// Where `find_from` finds the pattern: at or after `from`, inside `s`, and
/// matching `c0 c1`; `None` only when no position at or after `from` matches.
pub proof fn lemma_find_from_bounds(s: Seq<char>, from: int, c0: char, c1: char)
    requires
        0 <= from <= s.len(),
    ensures
        match find_from(s, from, c0, c1) {
            Some(i) => {
                &&& from <= i
                &&& i + 2 <= s.len()
                &&& s[i] == c0
                &&& s[i + 1] == c1
                &&& forall|j: int| from <= j < i ==> !(s[j] == c0 && #[trigger] s[j + 1] == c1)
            },
            None => forall|j: int|
                from <= j && j + 2 <= s.len() ==> !(s[j] == c0 && #[trigger] s[j + 1] == c1),
        },
    decreases s.len() - from,
{
    if from + 2 > s.len() {
    } else if s[from] == c0 && s[from + 1] == c1 {
    } else {
        lemma_find_from_bounds(s, from + 1, c0, c1);
    }
}

/// The key/value pair contributed by one raw field, if any: the field is
/// cleaned, dropped when empty or when it lacks the `='` separator, and
/// otherwise split at the first `='`.
pub open spec fn seg_pair(seg: Seq<char>) -> Option<(Seq<char>, Seq<char>)> {
    let t = clean_segment(seg);
    if t.len() == 0 {
        None
    } else {
        match find_from(t, 0, '=', '\'') {
            Some(i) => Some((t.take(i), t.skip(i + 2))),
            None => None,
        }
    }
}

/// `v` with a single trailing quote removed, if it has one.
pub open spec fn drop_final_quote(v: Seq<char>) -> Seq<char> {
    if v.len() > 0 && v.last() == '\'' {
        v.drop_last()
    } else {
        v
    }
}

/// The key/value pair of the final field of a block that lacks the closing
/// `';`: as `seg_pair`, but the single field-terminating quote at the end of
/// the value, if present, is dropped — a field before a `';` delimiter loses
/// its terminating quote to the split, and the final field's is dropped here
/// so that `key='value'` decodes the same wherever it stands.
pub open spec fn seg_pair_final(seg: Seq<char>) -> Option<(Seq<char>, Seq<char>)> {
    match seg_pair(seg) {
        Some(p) => Some((p.0, drop_final_quote(p.1))),
        None => None,
    }
}

/// The key/value pairs of the fields of `s` from position `from` on, in
/// field order. Fields are the pieces of `s` between occurrences of `';`;
/// the piece after the last `';` is the final, unterminated field.
pub open spec fn spec_pairs_from(s: Seq<char>, from: int) -> Seq<(Seq<char>, Seq<char>)>
    decreases s.len() - from,
    when 0 <= from <= s.len()
    via spec_pairs_from_decreases
{
    match find_from(s, from, '\'', ';') {
        Some(i) => match seg_pair(s.subrange(from, i)) {
            Some(p) => seq![p] + spec_pairs_from(s, i + 2),
            None => spec_pairs_from(s, i + 2),
        },
        None => match seg_pair_final(s.subrange(from, s.len() as int)) {
            Some(p) => seq![p],
            None => Seq::empty(),
        },
    }
}

#[via_fn]
proof fn spec_pairs_from_decreases(s: Seq<char>, from: int) {
    if 0 <= from <= s.len() {
        lemma_find_from_bounds(s, from, '\'', ';');
    }
}

/// `m` after inserting every pair of `ps` in order, so that on duplicate
/// keys the last pair wins.
pub open spec fn insert_all(
    m: Map<Seq<char>, Seq<char>>,
    ps: Seq<(Seq<char>, Seq<char>)>,
) -> Map<Seq<char>, Seq<char>>
    decreases ps.len(),
{
    if ps.len() == 0 {
        m
    } else {
        insert_all(m.insert(ps[0].0, ps[0].1), ps.drop_first())
    }
}

/// The mapping decoded from the text of one metadata block.
pub open spec fn spec_decode(s: Seq<char>) -> Map<Seq<char>, Seq<char>> {
    insert_all(Map::empty(), spec_pairs_from(s, 0))
}

/// One decoded metadata record: a mapping from key to value with unique
/// keys, assembled by key overwrite so that the last occurrence wins.
pub struct Record {
    pub pairs: Vec<(String, String)>,
}

impl View for Record {
    type V = Map<Seq<char>, Seq<char>>;

    open spec fn view(&self) -> Map<Seq<char>, Seq<char>> {
        insert_all(Map::empty(), self.pairs.deep_view())
    }
}

impl Record {
    /// Keys are pairwise distinct.
    pub open spec fn wf(&self) -> bool {
        forall|i: int, j: int|
            0 <= i < j < self.pairs.deep_view().len() ==> (#[trigger] self.pairs.deep_view()[i]).0
                != (#[trigger] self.pairs.deep_view()[j]).0
    }

    /// The empty record.
    pub fn new() -> (r: Record)
        ensures
            r.wf(),
            r@ == Map::<Seq<char>, Seq<char>>::empty(),
            r.pairs@.len() == 0,
    {
        Record { pairs: Vec::new() }
    }

    /// Adds `key -> value` to the record, overwriting the value of an
    /// existing key, so that the last insertion wins.
    pub fn insert(&mut self, key: String, value: String)
        requires
            old(self).wf(),
        ensures
            final(self).wf(),
            final(self)@ == old(self)@.insert(key@, value@),
    {
        let ghost ps = self.pairs.deep_view();
        proof {
            assert forall|x: int, y: int|
                0 <= x < y < ps.len() implies (#[trigger] ps[x]).0 != (#[trigger] ps[y]).0 by {
                assert((old(self).pairs.deep_view()[x]).0 != (old(self).pairs.deep_view()[y]).0);
            }
        }
        let mut i: usize = 0;
        while i < self.pairs.len()
            invariant
                i <= self.pairs@.len(),
                self == old(self),
                ps == self.pairs.deep_view(),
                forall|x: int, y: int|
                    0 <= x < y < ps.len() ==> (#[trigger] ps[x]).0 != (#[trigger] ps[y]).0,
                forall|j: int| 0 <= j < i ==> (#[trigger] ps[j]).0 != key@,
            decreases self.pairs@.len() - i,
        {
            if self.pairs[i].0 == key {
                proof {
                    assert(ps[i as int] == (self.pairs@[i as int].0@, self.pairs@[i as int].1@));
                }
                self.pairs.set(i, (key, value));
                proof {
                    let ps2 = self.pairs.deep_view();
                    assert(ps2 =~= ps.update(i as int, (ps[i as int].0, value@)));
                    lemma_insert_all_update(ps, i as int, value@);
                    assert forall|x: int, y: int|
                        0 <= x < y < ps2.len() implies (#[trigger] ps2[x]).0 != (
                    #[trigger] ps2[y]).0 by {
                        assert(ps2[x].0 == ps[x].0);
                        assert(ps2[y].0 == ps[y].0);
                    }
                }
                return ;
            }
            proof {
                assert(ps[i as int] == (self.pairs@[i as int].0@, self.pairs@[i as int].1@));
            }
            i = i + 1;
        }
        self.pairs.push((key, value));
        proof {
            let ps2 = self.pairs.deep_view();
            assert(ps2 =~= ps.push((key@, value@)));
            lemma_insert_all_push(Map::empty(), ps, (key@, value@));
            assert forall|x: int, y: int|
                0 <= x < y < ps2.len() implies (#[trigger] ps2[x]).0 != (#[trigger] ps2[y]).0 by {
                assert(ps2[x].0 == ps[x].0);
                if y < ps.len() {
                    assert(ps2[y].0 == ps[y].0);
                }
            }
        }
    }

    /// Looks the key up; `Some` exactly when the record maps it.
    pub fn get(&self, key: &str) -> (r: Option<String>)
        requires
            self.wf(),
        ensures
            match r {
                Some(v) => self@.contains_key(key@) && v@ == self@[key@],
                None => !self@.contains_key(key@),
            },
    {
        let ghost ps = self.pairs.deep_view();
        proof {
            assert forall|x: int, y: int|
                0 <= x < y < ps.len() implies (#[trigger] ps[x]).0 != (#[trigger] ps[y]).0 by {
                assert((self.pairs.deep_view()[x]).0 != (self.pairs.deep_view()[y]).0);
            }
        }
        let mut i: usize = 0;
        while i < self.pairs.len()
            invariant
                i <= self.pairs@.len(),
                self.wf(),
                ps == self.pairs.deep_view(),
                forall|x: int, y: int|
                    0 <= x < y < ps.len() ==> (#[trigger] ps[x]).0 != (#[trigger] ps[y]).0,
                forall|j: int| 0 <= j < i ==> (#[trigger] ps[j]).0 != key@,
            decreases self.pairs@.len() - i,
        {
            proof {
                assert(ps[i as int] == (self.pairs@[i as int].0@, self.pairs@[i as int].1@));
            }
            if str_eq(self.pairs[i].0.as_str(), key) {
                proof {
                    lemma_insert_all_unique(Map::empty(), ps);
                    assert(ps[i as int].0 == key@);
                }
                return Some(self.pairs[i].1.clone());
            }
            i = i + 1;
        }
        proof {
            lemma_insert_all_props(Map::empty(), ps);
        }
        None
    }
}

/// Whether two string slices hold the same characters.
pub fn str_eq(a: &str, b: &str) -> (r: bool)
    ensures
        r == (a@ == b@),
{
    let n = a.unicode_len();
    if n != b.unicode_len() {
        return false;
    }
    let mut i: usize = 0;
    while i < n
        invariant
            i <= n,
            n == a@.len(),
            n == b@.len(),
            forall|j: int| 0 <= j < i ==> a@[j] == b@[j],
        decreases n - i,
    {
        if a.get_char(i) != b.get_char(i) {
            return false;
        }
        i = i + 1;
    }
    proof {
        assert(a@ =~= b@);
    }
    true
}

/// Inserting all pairs after appending one more pair equals inserting all
/// the earlier pairs and then the appended one.
pub proof fn lemma_insert_all_push(
    m: Map<Seq<char>, Seq<char>>,
    ps: Seq<(Seq<char>, Seq<char>)>,
    p: (Seq<char>, Seq<char>),
)
    ensures
        insert_all(m, ps.push(p)) == insert_all(m, ps).insert(p.0, p.1),
    decreases ps.len(),
{
    if ps.len() == 0 {
        assert(ps.push(p)[0] == p);
        assert(ps.push(p).drop_first() =~= Seq::<(Seq<char>, Seq<char>)>::empty());
        assert(insert_all(m.insert(p.0, p.1), Seq::<(Seq<char>, Seq<char>)>::empty()) == m.insert(
            p.0,
            p.1,
        ));
        assert(insert_all(m, ps) == m);
    } else {
        assert(ps.push(p)[0] == ps[0]);
        assert(ps.push(p).drop_first() =~= ps.drop_first().push(p));
        lemma_insert_all_push(m.insert(ps[0].0, ps[0].1), ps.drop_first(), p);
        assert(insert_all(m, ps.push(p)) == insert_all(
            m.insert(ps[0].0, ps[0].1),
            ps.drop_first().push(p),
        ));
    }
}

/// Overwriting the value at an existing key (unique among the pairs) equals
/// inserting that key into the assembled map.
pub proof fn lemma_insert_all_update(ps: Seq<(Seq<char>, Seq<char>)>, i: int, v: Seq<char>)
    requires
        0 <= i < ps.len(),
        forall|x: int, y: int| 0 <= x < y < ps.len() ==> (#[trigger] ps[x]).0 != (#[trigger] ps[y]).0,
    ensures
        insert_all(Map::empty(), ps.update(i, (ps[i].0, v))) == insert_all(
            Map::empty(),
            ps,
        ).insert(ps[i].0, v),
{
    let ps2 = ps.update(i, (ps[i].0, v));
    assert forall|x: int, y: int|
        0 <= x < y < ps2.len() implies (#[trigger] ps2[x]).0 != (#[trigger] ps2[y]).0 by {
        assert(ps2[x].0 == ps[x].0);
        assert(ps2[y].0 == ps[y].0);
    }
    lemma_insert_all_props(Map::empty(), ps);
    lemma_insert_all_props(Map::empty(), ps2);
    lemma_insert_all_unique(Map::empty(), ps);
    lemma_insert_all_unique(Map::empty(), ps2);
    let lhs = insert_all(Map::empty(), ps2);
    let rhs = insert_all(Map::empty(), ps).insert(ps[i].0, v);
    assert forall|k: Seq<char>| lhs.contains_key(k) <==> rhs.contains_key(k) by {
        assert forall|j: int| 0 <= j < ps.len() implies (#[trigger] ps2[j]).0 == (
        #[trigger] ps[j]).0 by {}
        if lhs.contains_key(k) {
            let j = choose|j: int| 0 <= j < ps2.len() && (#[trigger] ps2[j]).0 == k;
            assert(ps[j].0 == k);
        }
        if rhs.contains_key(k) {
            if k == ps[i].0 {
                assert(ps2[i].0 == k);
            } else {
                let j = choose|j: int| 0 <= j < ps.len() && (#[trigger] ps[j]).0 == k;
                assert(ps2[j].0 == k);
            }
        }
    }
    assert forall|k: Seq<char>| lhs.contains_key(k) implies lhs[k] == rhs[k] by {
        let j = choose|j: int| 0 <= j < ps2.len() && (#[trigger] ps2[j]).0 == k;
        if j == i {
            assert(lhs[k] == ps2[i].1);
            assert(rhs[k] == v);
        } else {
            assert(ps[j].0 == k);
            assert(ps[j].0 != ps[i].0);
            assert(lhs[k] == ps2[j].1);
            assert(rhs[k] == ps[j].1);
        }
    }
    assert(lhs =~= rhs);
}

/// The NUL trim removes all of a text that is nothing but NUL characters.
proof fn lemma_trim_start_nul_all(s: Seq<char>)
    requires
        forall|i: int| 0 <= i < s.len() ==> s[i] == '\0',
    ensures
        trim_start_nul(s).len() == 0,
    decreases s.len(),
{
    if s.len() > 0 {
        assert(s[0] == '\0');
        assert forall|i: int| 0 <= i < s.drop_first().len() implies #[trigger] s.drop_first()[i]
            == '\0' by {
            assert(s[i + 1] == '\0');
        }
        lemma_trim_start_nul_all(s.drop_first());
    }
}

/// A block of nothing but NUL padding decodes to the empty mapping, without
/// error: NUL is not whitespace, so the whitespace trim leaves the single
/// field unchanged, the NUL trim then empties it, and an empty field is
/// dropped.
pub proof fn lemma_nul_padding_empty(s: Seq<char>)
    requires
        forall|i: int| 0 <= i < s.len() ==> s[i] == '\0',
    ensures
        spec_decode(s) == Map::<Seq<char>, Seq<char>>::empty(),
{
    match find_from(s, 0, '\'', ';') {
        Some(i) => {
            lemma_find_from_bounds(s, 0, '\'', ';');
            assert(s[i] == '\'');
            assert(s[i] == '\0');
            assert(false);
        },
        None => {},
    }
    let whole = s.subrange(0, s.len() as int);
    assert(whole =~= s);
    if s.len() > 0 {
        assert(!is_space(s[0]));
        assert(!is_space(s.last()));
        assert(trim_start_space(s) == s);
        assert(trim_end_space(s) == s);
    }
    lemma_trim_start_nul_all(s);
    assert(trim_end_nul(trim_start_nul(s)) == trim_start_nul(s));
    assert(clean_segment(s).len() == 0);
    assert(seg_pair(whole) is None);
    assert(seg_pair_final(whole) is None);
    assert(spec_pairs_from(s, 0) == Seq::<(Seq<char>, Seq<char>)>::empty());
}

/// Scans `s` for the first occurrence of the two-character pattern `c0 c1`
/// at or after `from`; `n` is the character length of `s`.
fn find_pattern(s: &str, from: usize, n: usize, c0: char, c1: char) -> (r: Option<usize>)
    requires
        n == s@.len(),
        from <= n,
    ensures
        match r {
            Some(i) => from <= i && i + 2 <= n && find_from(s@, from as int, c0, c1) == Some(
                i as int,
            ),
            None => find_from(s@, from as int, c0, c1) is None,
        },
{
    let mut i = from;
    loop
        invariant
            from <= i <= n,
            n == s@.len(),
            find_from(s@, from as int, c0, c1) == find_from(s@, i as int, c0, c1),
        decreases n - i,
    {
        if n - i < 2 {
            return None;
        }
        let a = s.get_char(i);
        let b = s.get_char(i + 1);
        if a == c0 && b == c1 {
            return Some(i);
        }
        i = i + 1;
    }
}

/// Trims whitespace, then NUL padding, from both ends of the character range
/// `[lo, hi)` of `s`, returning the cleaned range.
fn trim_segment(s: &str, lo: usize, hi: usize) -> (r: (usize, usize))
    requires
        lo <= hi <= s@.len(),
    ensures
        lo <= r.0 <= r.1 <= hi,
        s@.subrange(r.0 as int, r.1 as int) == clean_segment(
            s@.subrange(lo as int, hi as int),
        ),
{
    let mut l = lo;
    let mut h = hi;
    while l < h && is_space_char(s.get_char(l))
        invariant
            lo <= l <= h <= s@.len(),
            h == hi,
            trim_start_space(s@.subrange(lo as int, hi as int)) == trim_start_space(
                s@.subrange(l as int, hi as int),
            ),
        decreases h - l,
    {
        proof {
            assert(s@.subrange(l as int, hi as int).drop_first() =~= s@.subrange(
                l as int + 1,
                hi as int,
            ));
        }
        l = l + 1;
    }
    proof {
        assert(trim_start_space(s@.subrange(lo as int, hi as int)) == s@.subrange(
            l as int,
            hi as int,
        ));
    }
    let ghost t1 = s@.subrange(l as int, hi as int);
    while l < h && is_space_char(s.get_char(h - 1))
        invariant
            lo <= l <= h <= hi <= s@.len(),
            trim_end_space(t1) == trim_end_space(s@.subrange(l as int, h as int)),
            t1 == s@.subrange(l as int, hi as int),
        decreases h - l,
    {
        proof {
            assert(s@.subrange(l as int, h as int).drop_last() =~= s@.subrange(
                l as int,
                h as int - 1,
            ));
        }
        h = h - 1;
    }
    proof {
        assert(trim_end_space(t1) == s@.subrange(l as int, h as int));
    }
    let ghost t2 = s@.subrange(l as int, h as int);
    let ghost hm = h;
    while l < h && s.get_char(l) == '\0'
        invariant
            lo <= l <= h <= hi <= s@.len(),
            h == hm,
            trim_start_nul(t2) == trim_start_nul(s@.subrange(l as int, h as int)),
            t2 == trim_end_space(t1),
        decreases h - l,
    {
        proof {
            assert(s@.subrange(l as int, h as int).drop_first() =~= s@.subrange(
                l as int + 1,
                h as int,
            ));
        }
        l = l + 1;
    }
    proof {
        assert(trim_start_nul(t2) == s@.subrange(l as int, hm as int));
    }
    let ghost t3 = s@.subrange(l as int, h as int);
    while l < h && s.get_char(h - 1) == '\0'
        invariant
            lo <= l <= h <= hi <= s@.len(),
            trim_end_nul(t3) == trim_end_nul(s@.subrange(l as int, h as int)),
            t3 == trim_start_nul(t2),
        decreases h - l,
    {
        proof {
            assert(s@.subrange(l as int, h as int).drop_last() =~= s@.subrange(
                l as int,
                h as int - 1,
            ));
        }
        h = h - 1;
    }
    proof {
        assert(trim_end_nul(t3) == s@.subrange(l as int, h as int));
    }
    (l, h)
}

/// Applies one raw field to the record: the field is cleaned, skipped when
/// it is empty or lacks `='`, and otherwise split into key and value at the
/// first `='`.
fn handle_segment(seg: &str, rec: &mut Record, final_field: bool)
    requires
        old(rec).wf(),
    ensures
        final(rec).wf(),
        final(rec)@ == match (if final_field {
            seg_pair_final(seg@)
        } else {
            seg_pair(seg@)
        }) {
            Some(p) => old(rec)@.insert(p.0, p.1),
            None => old(rec)@,
        },
{
    let n = seg.unicode_len();
    proof {
        assert(seg@.subrange(0, n as int) =~= seg@);
    }
    let (l, h) = trim_segment(seg, 0, n);
    if l == h {
        proof {
            assert(clean_segment(seg@).len() == 0);
        }
        return ;
    }
    let t = seg.substring_char(l, h);
    let tn = h - l;
    match find_pattern(t, 0, tn, '=', '\'') {
        None => {},
        Some(i) => {
            let ghost full = clean_segment(seg@).skip(i as int + 2);
            let vhi = if final_field && i + 2 < tn && t.get_char(tn - 1) == '\'' {
                proof {
                    assert(t@[tn as int - 1] == full.last());
                    assert(full.drop_last() =~= clean_segment(seg@).subrange(
                        i as int + 2,
                        tn as int - 1,
                    ));
                }
                tn - 1
            } else {
                tn
            };
            let k = t.substring_char(0, i);
            let v = t.substring_char(i + 2, vhi);
            proof {
                assert(k@ =~= clean_segment(seg@).take(i as int));
                assert(full =~= clean_segment(seg@).subrange(i as int + 2, tn as int));
                if final_field {
                    assert(v@ =~= drop_final_quote(full));
                } else {
                    assert(v@ =~= full);
                }
            }
            rec.insert(k.to_owned(), v.to_owned());
        },
    }
}

/// Decodes the text of one metadata block into its record: fields separated
/// by `';`, each cleaned and split at its first `='`, the last occurrence of
/// a key winning.
pub fn decode_meta(s: &str) -> (r: Record)
    ensures
        r.wf(),
        r@ == spec_decode(s@),
{
    let n = s.unicode_len();
    let mut rec = Record::new();
    let mut pos: usize = 0;
    loop
        invariant_except_break
            pos <= n,
            n == s@.len(),
            rec.wf(),
            insert_all(rec@, spec_pairs_from(s@, pos as int)) == spec_decode(s@),
        ensures
            rec.wf(),
            rec@ == spec_decode(s@),
        decreases n - pos,
    {
        match find_pattern(s, pos, n, '\'', ';') {
            Some(i) => {
                let seg = s.substring_char(pos, i);
                let ghost pre = rec@;
                handle_segment(seg, &mut rec, false);
                proof {
                    let ps_all = spec_pairs_from(s@, pos as int);
                    let rest = spec_pairs_from(s@, i as int + 2);
                    match seg_pair(s@.subrange(pos as int, i as int)) {
                        Some(p) => {
                            assert(ps_all == seq![p] + rest);
                            assert((seq![p] + rest)[0] == p);
                            assert((seq![p] + rest).drop_first() =~= rest);
                            assert(insert_all(pre, ps_all) == insert_all(
                                pre.insert(p.0, p.1),
                                rest,
                            ));
                        },
                        None => {
                            assert(ps_all == rest);
                        },
                    }
                }
                pos = i + 2;
            },
            None => {
                let seg = s.substring_char(pos, n);
                let ghost pre = rec@;
                handle_segment(seg, &mut rec, true);
                proof {
                    let ps_all = spec_pairs_from(s@, pos as int);
                    match seg_pair_final(s@.subrange(pos as int, n as int)) {
                        Some(p) => {
                            assert(ps_all == seq![p]);
                            assert(seq![p][0] == p);
                            assert(seq![p].drop_first() =~= Seq::<(Seq<char>, Seq<char>)>::empty());
                            assert(insert_all(pre, ps_all) == insert_all(
                                pre.insert(p.0, p.1),
                                Seq::<(Seq<char>, Seq<char>)>::empty(),
                            ));
                        },
                        None => {
                            assert(ps_all =~= Seq::<(Seq<char>, Seq<char>)>::empty());
                        },
                    }
                }
                break ;
            },
        }
    }
    rec
}

/// Relies on `String::from_utf8`: it succeeds exactly on valid UTF-8 input
/// (vstd's `valid_utf8`) and then returns the string whose characters are
/// the UTF-8 decoding of the input (vstd's `decode_utf8`).
#[verifier::external_body]
fn utf8_to_string(bytes: Vec<u8>) -> (r: Result<String, DecodeError>)
    ensures
        valid_utf8(bytes@) ==> r is Ok && r->Ok_0@ == decode_utf8(bytes@),
        !valid_utf8(bytes@) ==> r is Err && r->Err_0 == DecodeError::InvalidEncoding,
{
    match String::from_utf8(bytes) {
        Ok(s) => Ok(s),
        Err(_) => Err(DecodeError::InvalidEncoding),
    }
}

/// Decodes the raw bytes of one metadata block: an error exactly when the
/// bytes are not valid UTF-8, and otherwise the record of the block's text.
pub fn decode_meta_block(bytes: Vec<u8>) -> (r: Result<Record, DecodeError>)
    ensures
        r is Ok <==> valid_utf8(bytes@),
        r is Ok ==> r->Ok_0.wf() && r->Ok_0@ == spec_decode(decode_utf8(bytes@)),
        r is Err ==> r->Err_0 == DecodeError::InvalidEncoding,
{
    match utf8_to_string(bytes) {
        Ok(s) => Ok(decode_meta(s.as_str())),
        Err(e) => Err(e),
    }
}

/// A key is in `insert_all(m, ps)` exactly when it is a key of `m` or the
/// key of some pair of `ps`.
pub proof fn lemma_insert_all_props(m: Map<Seq<char>, Seq<char>>, ps: Seq<(Seq<char>, Seq<char>)>)
    ensures
        forall|k: Seq<char>|
            #[trigger] insert_all(m, ps).contains_key(k) <==> (m.contains_key(k) || exists|i: int|
                0 <= i < ps.len() && (#[trigger] ps[i]).0 == k),
    decreases ps.len(),
{
    if ps.len() == 0 {
    } else {
        let m1 = m.insert(ps[0].0, ps[0].1);
        let tail = ps.drop_first();
        lemma_insert_all_props(m1, tail);
        assert forall|k: Seq<char>|
            #[trigger] insert_all(m, ps).contains_key(k) <==> (m.contains_key(k) || exists|i: int|
                0 <= i < ps.len() && (#[trigger] ps[i]).0 == k) by {
            assert(insert_all(m, ps) == insert_all(m1, tail));
            if insert_all(m1, tail).contains_key(k) && !m.contains_key(k) {
                if m1.contains_key(k) {
                    assert(ps[0].0 == k);
                } else {
                    let j = choose|j: int| 0 <= j < tail.len() && (#[trigger] tail[j]).0 == k;
                    assert(ps[j + 1] == tail[j]);
                    assert(ps[j + 1].0 == k);
                }
            }
            if exists|i: int| 0 <= i < ps.len() && (#[trigger] ps[i]).0 == k {
                let i = choose|i: int| 0 <= i < ps.len() && (#[trigger] ps[i]).0 == k;
                if i == 0 {
                    assert(m1.contains_key(k));
                } else {
                    assert(tail[i - 1] == ps[i]);
                    assert(tail[i - 1].0 == k);
                    assert(insert_all(m1, tail).contains_key(k));
                }
            }
            if m.contains_key(k) {
                assert(m1.contains_key(k));
            }
        }
    }
}

/// A key held by `m` but by no pair of `ps` keeps its value through
/// `insert_all`.
pub proof fn lemma_insert_all_absent(
    m: Map<Seq<char>, Seq<char>>,
    ps: Seq<(Seq<char>, Seq<char>)>,
    k: Seq<char>,
)
    requires
        m.contains_key(k),
        forall|i: int| 0 <= i < ps.len() ==> (#[trigger] ps[i]).0 != k,
    ensures
        insert_all(m, ps).contains_key(k),
        insert_all(m, ps)[k] == m[k],
    decreases ps.len(),
{
    if ps.len() == 0 {
    } else {
        let m1 = m.insert(ps[0].0, ps[0].1);
        let tail = ps.drop_first();
        assert(ps[0].0 != k);
        assert forall|j: int| 0 <= j < tail.len() implies (#[trigger] tail[j]).0 != k by {
            assert(tail[j] == ps[j + 1]);
        }
        lemma_insert_all_absent(m1, tail, k);
    }
}

/// When the keys of `ps` are pairwise distinct, each pair's key maps to that
/// pair's value in `insert_all(m, ps)`.
pub proof fn lemma_insert_all_unique(m: Map<Seq<char>, Seq<char>>, ps: Seq<(Seq<char>, Seq<char>)>)
    requires
        forall|x: int, y: int| 0 <= x < y < ps.len() ==> (#[trigger] ps[x]).0 != (#[trigger] ps[y]).0,
    ensures
        forall|i: int|
            0 <= i < ps.len() ==> insert_all(m, ps).contains_key((#[trigger] ps[i]).0) && insert_all(
                m,
                ps,
            )[ps[i].0] == ps[i].1,
    decreases ps.len(),
{
    if ps.len() == 0 {
    } else {
        let m1 = m.insert(ps[0].0, ps[0].1);
        let tail = ps.drop_first();
        assert forall|x: int, y: int|
            0 <= x < y < tail.len() implies (#[trigger] tail[x]).0 != (#[trigger] tail[y]).0 by {
            assert(tail[x] == ps[x + 1]);
            assert(tail[y] == ps[y + 1]);
        }
        lemma_insert_all_unique(m1, tail);
        assert forall|i: int|
            0 <= i < ps.len() implies insert_all(m, ps).contains_key((#[trigger] ps[i]).0)
            && insert_all(m, ps)[ps[i].0] == ps[i].1 by {
            assert(insert_all(m, ps) == insert_all(m1, tail));
            if i == 0 {
                assert forall|j: int| 0 <= j < tail.len() implies (#[trigger] tail[j]).0
                    != ps[0].0 by {
                    assert(tail[j] == ps[j + 1]);
                }
                lemma_insert_all_absent(m1, tail, ps[0].0);
            } else {
                assert(tail[i - 1] == ps[i]);
            }
        }
    }
}

} // verus!
