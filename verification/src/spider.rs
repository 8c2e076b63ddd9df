//! Search engines, the requests made of them, and the decisions that the
//! command line leads to before any request is made.

use vstd::prelude::*;
use crate::text::push_char;
pub use crate::Prey;

verus! {

/// A search engine that can be asked.
#[derive(Clone, Copy, Debug, PartialEq, Eq, Structural)]
pub enum SearchEngine {
    Google,
    Baidu,
    Bing,
}

impl SearchEngine {
    /// The search address of the engine, up to the keyword.
    pub open spec fn spec_url_prefix(self) -> Seq<char> {
        match self {
            SearchEngine::Google => "https://www.google.com/search?hl=en&num=10&start=0&q="@,
            SearchEngine::Baidu => "http://www.baidu.com/s?wd="@,
            SearchEngine::Bing => "https://www.bing.com/search?q="@,
        }
    }

    /// The name by which the engine is chosen and reported.
    pub open spec fn spec_name(self) -> Seq<char> {
        match self {
            SearchEngine::Google => "google"@,
            SearchEngine::Baidu => "baidu"@,
            SearchEngine::Bing => "bing"@,
        }
    }

    /// The address at which the engine is asked for `keyword`: its search
    /// address followed by the keyword as it stands.
    pub fn search_url(&self, keyword: &str) -> (url: String)
        ensures
            url@ == self.spec_url_prefix() + keyword@,
    {
        let mut url = String::new();
        match self {
            SearchEngine::Google => url.append("https://www.google.com/search?hl=en&num=10&start=0&q="),
            SearchEngine::Baidu => url.append("http://www.baidu.com/s?wd="),
            SearchEngine::Bing => url.append("https://www.bing.com/search?q="),
        }
        url.append(keyword);
        assert(url@ =~= self.spec_url_prefix() + keyword@);
        url
    }

    /// The name by which the engine is chosen and reported.
    pub fn name(&self) -> (n: &'static str)
        ensures
            n@ == self.spec_name(),
    {
        match self {
            SearchEngine::Google => "google",
            SearchEngine::Baidu => "baidu",
            SearchEngine::Bing => "bing",
        }
    }
}

/// The pieces of `s` between the occurrences of `sep`, in order; there is
/// always one more piece than there are separators.
pub open spec fn split_on(s: Seq<char>, sep: char) -> Seq<Seq<char>>
    decreases s.len(),
{
    if s.len() == 0 {
        seq![seq![]]
    } else {
        let pieces = split_on(s.drop_last(), sep);
        if s.last() == sep {
            pieces.push(seq![])
        } else {
            pieces.update(pieces.len() - 1, pieces.last().push(s.last()))
        }
    }
}

/// The pieces joined again, with `sep` between each two.
pub open spec fn join_with(pieces: Seq<Seq<char>>, sep: char) -> Seq<char>
    decreases pieces.len(),
{
    if pieces.len() == 0 {
        seq![]
    } else if pieces.len() == 1 {
        pieces[0]
    } else {
        join_with(pieces.drop_last(), sep).push(sep) + pieces.last()
    }
}

pub proof fn lemma_split_nonempty(s: Seq<char>, sep: char)
    ensures
        split_on(s, sep).len() >= 1,
    decreases s.len(),
{
    if s.len() > 0 {
        lemma_split_nonempty(s.drop_last(), sep);
    }
}

/// Splitting and joining again gives back the text: `join_with` undoes
/// `split_on`.
pub proof fn lemma_split_join(s: Seq<char>, sep: char)
    ensures
        join_with(split_on(s, sep), sep) == s,
    decreases s.len(),
{
    if s.len() > 0 {
        let init = s.drop_last();
        let c = s.last();
        let p = split_on(init, sep);
        lemma_split_join(init, sep);
        lemma_split_nonempty(init, sep);
        if c == sep {
            let q = p.push(seq![]);
            assert(q.drop_last() =~= p);
            assert(join_with(q, sep) =~= s);
        } else {
            let q = p.update(p.len() - 1, p.last().push(c));
            if p.len() == 1 {
                assert(join_with(q, sep) =~= s);
            } else {
                assert(q.drop_last() =~= p.drop_last());
                let x = join_with(p.drop_last(), sep).push(sep);
                assert(join_with(q, sep) =~= x + p.last().push(c));
                assert(join_with(p, sep) == x + p.last());
                assert(x + p.last().push(c) =~= (x + p.last()).push(c));
                assert(s =~= init.push(c));
            }
        }
    }
}

/// No piece of a split holds the separator.
pub proof fn lemma_split_pieces_free(s: Seq<char>, sep: char)
    ensures
        forall|i: int, j: int|
            0 <= i < split_on(s, sep).len() && 0 <= j < split_on(s, sep)[i].len()
                ==> #[trigger] split_on(s, sep)[i][j] != sep,
    decreases s.len(),
{
    if s.len() > 0 {
        let init = s.drop_last();
        lemma_split_pieces_free(init, sep);
        lemma_split_nonempty(init, sep);
        let p = split_on(init, sep);
        let q = split_on(s, sep);
        assert forall|i: int, j: int| 0 <= i < q.len() && 0 <= j < q[i].len() implies #[trigger] q[i][j] != sep by {
            if i < p.len() - 1 {
                assert(q[i] == p[i]);
            } else if i == p.len() - 1 {
                if s.last() != sep && j < p[i].len() {
                    assert(q[i][j] == p[i][j]);
                }
            }
        }
    }
}

/// The keywords of a comma-separated list, in order, as `str::split(',')`
/// gives them: empty pieces included.
pub fn split_keywords(keywords: &str) -> (pieces: Vec<String>)
    ensures
        pieces.deep_view() == split_on(keywords@, ','),
{
    let mut pieces: Vec<String> = Vec::new();
    let mut current = String::new();
    for c in it: keywords.chars()
        invariant
            it.seq() == keywords@,
            pieces.deep_view().push(current@) == split_on(keywords@.take(it.index()), ','),
    {
        let ghost prefix = keywords@.take(it.index());
        proof {
            assert(keywords@.take(it.index() + 1).drop_last() =~= prefix);
            lemma_split_nonempty(prefix, ',');
        }
        let ghost before = pieces.deep_view();
        let ghost cur = current@;
        if c == ',' {
            let done = current;
            pieces.push(done);
            current = String::new();
            assert(pieces.deep_view() =~= before.push(cur));
            assert(pieces.deep_view().push(current@) =~= before.push(cur).push(seq![]));
        } else {
            push_char(&mut current, c);
            assert(pieces.deep_view().push(current@) =~= before.push(cur).update(
                before.len() as int,
                cur.push(c),
            ));
        }
    }
    proof {
        assert(keywords@.take(keywords@.len() as int) =~= keywords@);
    }
    pieces.push(current);
    pieces
}

/// The engines chosen, in the order baidu, google, bing.
pub open spec fn spec_engines(baidu: bool, google: bool, bing: bool) -> Seq<SearchEngine> {
    (if baidu { seq![SearchEngine::Baidu] } else { seq![] })
        + (if google { seq![SearchEngine::Google] } else { seq![] })
        + (if bing { seq![SearchEngine::Bing] } else { seq![] })
}

/// Each engine is chosen exactly when its flag is set, none twice, and
/// none at all only where no flag is set; the chosen engines come in the
/// order baidu, google, bing: each stands at the index that counts the
/// chosen engines before it in that order.
pub proof fn lemma_engines_chosen(baidu: bool, google: bool, bing: bool)
    ensures
        spec_engines(baidu, google, bing).contains(SearchEngine::Baidu) <==> baidu,
        spec_engines(baidu, google, bing).contains(SearchEngine::Google) <==> google,
        spec_engines(baidu, google, bing).contains(SearchEngine::Bing) <==> bing,
        spec_engines(baidu, google, bing).no_duplicates(),
        spec_engines(baidu, google, bing).len() == 0 <==> !baidu && !google && !bing,
        spec_engines(baidu, google, bing).len() == (if baidu { 1int } else { 0int }) + (if google { 1int } else { 0int }) + (if bing { 1int } else { 0int }),
        baidu ==> spec_engines(baidu, google, bing)[0] == SearchEngine::Baidu,
        google ==> spec_engines(baidu, google, bing)[if baidu { 1int } else { 0int }] == SearchEngine::Google,
        bing ==> spec_engines(baidu, google, bing)[(if baidu { 1int } else { 0int }) + (if google { 1int } else { 0int })] == SearchEngine::Bing,
{
    let e = spec_engines(baidu, google, bing);
    let b: Seq<SearchEngine> = if baidu { seq![SearchEngine::Baidu] } else { seq![] };
    let g: Seq<SearchEngine> = if google { seq![SearchEngine::Google] } else { seq![] };
    let i: Seq<SearchEngine> = if bing { seq![SearchEngine::Bing] } else { seq![] };
    assert(e == b + g + i);
    assert forall|x: SearchEngine| #[trigger] e.contains(x) <==> (b.contains(x) || g.contains(x) || i.contains(x)) by {
        if e.contains(x) {
            let k = choose|k: int| 0 <= k < e.len() && e[k] == x;
            if k < b.len() {
                assert(b[k] == x);
            } else if k < b.len() + g.len() {
                assert(g[k - b.len()] == x);
            } else {
                assert(i[k - b.len() - g.len()] == x);
            }
        }
        if b.contains(x) {
            assert(e[0] == x);
        }
        if g.contains(x) {
            assert(e[b.len() as int] == x);
        }
        if i.contains(x) {
            assert(e[(b.len() + g.len()) as int] == x);
        }
    }
    if baidu {
        assert(b[0] == SearchEngine::Baidu);
    }
    if google {
        assert(g[0] == SearchEngine::Google);
    }
    if bing {
        assert(i[0] == SearchEngine::Bing);
    }
}

/// The engines chosen on the command line, in the order baidu, google, bing.
pub fn selected_engines(baidu: bool, google: bool, bing: bool) -> (engines: Vec<SearchEngine>)
    ensures
        engines@ == spec_engines(baidu, google, bing),
{
    let mut engines: Vec<SearchEngine> = Vec::new();
    if baidu {
        engines.push(SearchEngine::Baidu);
    }
    if google {
        engines.push(SearchEngine::Google);
    }
    if bing {
        engines.push(SearchEngine::Bing);
    }
    assert(engines@ =~= spec_engines(baidu, google, bing));
    engines
}

} // verus!
