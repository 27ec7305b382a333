use vstd::prelude::*;

use crate::model::AppError;

verus! {

/// Characters that a filter term may hold.
pub open spec fn allowed_filter_char(c: char) -> bool {
    ('a' <= c && c <= 'z') || ('A' <= c && c <= 'Z') || ('0' <= c && c <= '9') || c == '.' || c
        == ' ' || c == '-' || c == '_' || c == ':' || c == '/' || c == '(' || c == ')'
}

/// A filter query is a `;`-separated list of terms built from allowed characters.
pub open spec fn valid_filter_query(q: Seq<char>) -> bool {
    forall|i: int| 0 <= i < q.len() ==> q[i] == ';' || allowed_filter_char(#[trigger] q[i])
}

/// The pieces of `q` between the `;` separators, in order; never empty.
pub open spec fn split_terms(q: Seq<char>) -> Seq<Seq<char>>
    decreases q.len(),
{
    if q.len() == 0 {
        seq![Seq::<char>::empty()]
    } else {
        let p = split_terms(q.drop_last());
        if q.last() == ';' {
            p.push(Seq::<char>::empty())
        } else {
            p.update(p.len() - 1, p.last().push(q.last()))
        }
    }
}

/// The terms of a valid filter query, as bytes.
pub open spec fn query_terms(q: Seq<char>) -> Seq<Seq<u8>> {
    split_terms(q).map_values(|t: Seq<char>| ascii_bytes(t))
}

/// The bytes of an ASCII text.
pub open spec fn ascii_bytes(t: Seq<char>) -> Seq<u8> {
    t.map_values(|c: char| c as u32 as u8)
}

/// Whether `needle` occurs in `hay` as a contiguous run.
pub open spec fn contains_run(hay: Seq<u8>, needle: Seq<u8>) -> bool {
    exists|i: int|
        0 <= i && i + needle.len() <= hay.len() && #[trigger] hay.subrange(i, i + needle.len())
            == needle
}

/// A payload passes a filter when each of its terms occurs in it.
pub open spec fn passes_filter(payload: Seq<u8>, terms: Seq<Seq<u8>>) -> bool {
    forall|k: int| 0 <= k < terms.len() ==> contains_run(payload, #[trigger] terms[k])
}

/// A validated filter: terms that must all occur, byte for byte, in a payload.
pub struct Filter {
    pub terms: Vec<Vec<u8>>,
}

impl View for Filter {
    type V = Seq<Seq<u8>>;

    open spec fn view(&self) -> Seq<Seq<u8>> {
        self.terms@.map_values(|t: Vec<u8>| t@)
    }
}

proof fn lemma_split_terms_nonempty(q: Seq<char>)
    ensures
        split_terms(q).len() >= 1,
    decreases q.len(),
{
    if q.len() > 0 {
        lemma_split_terms_nonempty(q.drop_last());
    }
}

/// Splits a `;`-separated filter query into its terms, rejecting a query
/// with a character outside the allowed set.
pub fn construct_sql_filter(filter_query: &str) -> (r: Result<Filter, AppError>)
    ensures
        r is Err <==> !valid_filter_query(filter_query@),
        r is Err ==> r == Err::<Filter, AppError>(AppError::InvalidInput),
        r matches Ok(f) ==> f@ == query_terms(filter_query@),
{
    let n = filter_query.unicode_len();
    let ghost q = filter_query@;
    let mut terms: Vec<Vec<u8>> = Vec::new();
    let mut cur: Vec<u8> = Vec::new();
    let mut i: usize = 0;
    assert(q.subrange(0, 0) =~= Seq::<char>::empty());
    assert(ascii_bytes(Seq::<char>::empty()) =~= Seq::<u8>::empty());
    assert(terms@.map_values(|t: Vec<u8>| t@).push(cur@) =~= split_terms(q.subrange(0, 0)).map_values(
        |t: Seq<char>| ascii_bytes(t),
    ));
    while i < n
        invariant
            n == q.len(),
            q == filter_query@,
            i <= n,
            forall|j: int| 0 <= j < i ==> q[j] == ';' || allowed_filter_char(#[trigger] q[j]),
            terms@.map_values(|t: Vec<u8>| t@).push(cur@) == split_terms(q.subrange(0, i as int)).map_values(
                |t: Seq<char>| ascii_bytes(t),
            ),
        decreases n - i,
    {
        let c = filter_query.get_char(i);
        let ghost pre = q.subrange(0, i as int);
        let ghost next = q.subrange(0, i + 1);
        let ghost old_terms = terms@.map_values(|t: Vec<u8>| t@);
        let ghost old_cur = cur@;
        let ghost p = split_terms(pre);
        assert(next.drop_last() =~= pre);
        assert(next.last() == c);
        proof {
            lemma_split_terms_nonempty(pre);
        }
        if c == ';' {
            terms.push(cur);
            cur = Vec::new();
            assert(terms@.map_values(|t: Vec<u8>| t@) =~= old_terms.push(old_cur));
            assert(ascii_bytes(Seq::<char>::empty()) =~= Seq::<u8>::empty());
            assert(split_terms(next) == p.push(Seq::<char>::empty()));
            assert(terms@.map_values(|t: Vec<u8>| t@).push(cur@) =~= split_terms(next).map_values(
                |t: Seq<char>| ascii_bytes(t),
            ));
        } else if ('a' <= c && c <= 'z') || ('A' <= c && c <= 'Z') || ('0' <= c && c <= '9') || c
            == '.' || c == ' ' || c == '-' || c == '_' || c == ':' || c == '/' || c == '(' || c
            == ')' {
            cur.push(c as u32 as u8);
            assert(split_terms(next) == p.update(p.len() - 1, p.last().push(c)));
            assert(ascii_bytes(p.last().push(c)) =~= ascii_bytes(p.last()).push(c as u32 as u8));
            assert(p.map_values(|t: Seq<char>| ascii_bytes(t)).last() == old_cur);
            assert(terms@.map_values(|t: Vec<u8>| t@) == old_terms);
            assert(p.update(p.len() - 1, p.last().push(c)).map_values(|t: Seq<char>| ascii_bytes(t))
                =~= p.map_values(|t: Seq<char>| ascii_bytes(t)).update(
                p.len() - 1,
                ascii_bytes(p.last().push(c)),
            ));
            assert(terms@.map_values(|t: Vec<u8>| t@).push(cur@) =~= split_terms(next).map_values(
                |t: Seq<char>| ascii_bytes(t),
            ));
        } else {
            assert(!allowed_filter_char(q[i as int]));
            return Err(AppError::InvalidInput);
        }
        i = i + 1;
    }
    let ghost old_terms = terms@.map_values(|t: Vec<u8>| t@);
    let ghost old_cur = cur@;
    terms.push(cur);
    assert(terms@.map_values(|t: Vec<u8>| t@) =~= old_terms.push(old_cur));
    assert(q.subrange(0, n as int) =~= q);
    Ok(Filter { terms })
}

/// Whether `needle` occurs in `hay` as a contiguous run.
pub fn bytes_contain(hay: &Vec<u8>, needle: &Vec<u8>) -> (r: bool)
    ensures
        r == contains_run(hay@, needle@),
{
    if needle.len() == 0 {
        assert(hay@.subrange(0, 0 + needle@.len() as int) =~= needle@);
        return true;
    }
    if needle.len() > hay.len() {
        return false;
    }
    let hl = hay.len();
    let count = hl - needle.len() + 1;
    let mut i: usize = 0;
    while i < count
        invariant
            needle@.len() <= hay@.len(),
            hl == hay@.len(),
            count == hay@.len() - needle@.len() + 1,
            i <= count,
            forall|k: int| 0 <= k < i ==> #[trigger] hay@.subrange(k, k + needle@.len()) != needle@,
        decreases count - i,
    {
        let mut j: usize = 0;
        let mut same = true;
        while j < needle.len()
            invariant
                needle@.len() <= hay@.len(),
                i < count,
                i + needle@.len() <= hay@.len(),
                hl == hay@.len(),
                count == hay@.len() - needle@.len() + 1,
                j <= needle@.len(),
                same ==> forall|m: int| 0 <= m < j ==> hay@[i + m] == needle@[m],
                !same ==> hay@.subrange(i as int, i + needle@.len()) != needle@,
            decreases needle.len() - j,
        {
            let at: usize = i + j;
            if hay[at] != needle[j] {
                assert(hay@.subrange(i as int, i + needle@.len())[j as int] != needle@[j as int]);
                same = false;
            }
            j = j + 1;
        }
        if same {
            assert(hay@.subrange(i as int, i + needle@.len()) =~= needle@);
            return true;
        }
        i = i + 1;
    }
    false
}

impl Filter {
    /// Whether each term occurs in `payload`.
    pub fn accepts(&self, payload: &Vec<u8>) -> (r: bool)
        ensures
            r == passes_filter(payload@, self@),
    {
        let mut k: usize = 0;
        while k < self.terms.len()
            invariant
                k <= self.terms@.len(),
                forall|m: int| 0 <= m < k ==> contains_run(payload@, #[trigger] self@[m]),
            decreases self.terms.len() - k,
        {
            if !bytes_contain(payload, &self.terms[k]) {
                assert(self@[k as int] == self.terms@[k as int]@);
                return false;
            }
            assert(self@[k as int] == self.terms@[k as int]@);
            k = k + 1;
        }
        true
    }
}

} // verus!
