//! What a run of the crawler does, decided from its command line before any
//! request is made.

use vstd::prelude::*;
use crate::spider::{
    SearchEngine, join_with, lemma_engines_chosen, lemma_split_join, selected_engines, split_keywords,
    spec_engines, split_on,
};

verus! {

/// What `url::Url::parse` makes of `s`: `None` where it reads `s` as an
/// absolute URL, else the text of its parse error.
pub uninterp spec fn url_parse_failure(s: Seq<char>) -> Option<Seq<char>>;

/// An optional string taken by its view.
pub open spec fn opt_view(o: Option<String>) -> Option<Seq<char>> {
    match o {
        Some(s) => Some(s@),
        None => None,
    }
}

/// Calls `url::Url::parse` on `s` and keeps only whether it succeeded and,
/// where it did not, the text of the error. The contract claims only that
/// the outcome is the one [`url_parse_failure`] names for `s`: the parser
/// gives the same answer on the same text; which texts it accepts is the
/// URL standard's to say.
#[verifier::external_body]
fn url_parse_failure_of(s: &str) -> (r: Option<String>)
    ensures
        opt_view(r) == url_parse_failure(s@),
{
    url::Url::parse(s).err().map(|e| e.to_string())
}

/// How requests are to be sent.
#[derive(Debug)]
pub enum ProxyChoice {
    /// Straight to the engines.
    Direct,
    /// Through the proxy at this address.
    Through(String),
    /// A proxy was asked for, but its address is no URL: the parse error.
    Invalid(String),
}

/// What a run does.
#[derive(Debug)]
pub enum Plan {
    /// No keywords were given: nothing is asked.
    NoKeywords,
    /// Keywords were given but no engine was chosen: nothing is asked.
    NoEngines,
    /// Ask these engines for these keywords, sending as `proxy` says.
    Search { keywords: Vec<String>, engines: Vec<SearchEngine>, proxy: ProxyChoice },
}

/// Whether `choice` is the one owed for `proxy`, where the URL parser said
/// `failure` of it.
pub open spec fn proxy_is(choice: ProxyChoice, proxy: Option<Seq<char>>, failure: Option<
    Seq<char>,
>) -> bool {
    match proxy {
        None => choice is Direct,
        Some(p) => match failure {
            None => choice matches ProxyChoice::Through(t) && t@ == p,
            Some(e) => choice matches ProxyChoice::Invalid(m) && m@ == e,
        },
    }
}

/// Whether `plan` is the one owed for the command line `keywords`,
/// `baidu`, `google`, `bing`, `proxy`, where the URL parser said `failure`
/// of the proxy address.
pub open spec fn plan_is(
    plan: Plan,
    keywords: Option<Seq<char>>,
    baidu: bool,
    google: bool,
    bing: bool,
    proxy: Option<Seq<char>>,
    failure: Option<Seq<char>>,
) -> bool {
    match keywords {
        None => plan is NoKeywords,
        Some(k) => if spec_engines(baidu, google, bing).len() == 0 {
            plan is NoEngines
        } else {
            &&& plan matches Plan::Search { keywords: ks, engines, proxy: choice }
            &&& ks.deep_view() == split_on(k, ',')
            &&& engines@ == spec_engines(baidu, google, bing)
            &&& proxy_is(choice, proxy, failure)
        },
    }
}

/// Without keywords nothing is asked, whatever the engine flags: the plan
/// is `NoKeywords` exactly when no keywords are given, and `NoEngines`
/// exactly when keywords are given but no engine is chosen. A search is
/// planned exactly when keywords are given and at least one engine is
/// chosen; it sends straight to the engines where no proxy is given,
/// through the proxy where its address parsed, and not at all (reporting the
/// parse error) where it did not; its keywords, joined again with commas, give back the
/// keyword argument.
pub proof fn lemma_plan_search(
    plan: Plan,
    keywords: Option<Seq<char>>,
    baidu: bool,
    google: bool,
    bing: bool,
    proxy: Option<Seq<char>>,
    failure: Option<Seq<char>>,
)
    requires
        plan_is(plan, keywords, baidu, google, bing, proxy, failure),
    ensures
        plan is Search <==> keywords is Some && (baidu || google || bing),
        plan is NoKeywords <==> keywords is None,
        plan is NoEngines <==> keywords is Some && !baidu && !google && !bing,
        plan matches Plan::Search { keywords: ks, .. } ==> keywords == Some(join_with(ks.deep_view(), ',')),
        plan matches Plan::Search { proxy: choice, .. } ==> match (proxy, failure) {
            (None, _) => choice is Direct,
            (Some(p), None) => choice matches ProxyChoice::Through(t) && t@ == p,
            (Some(_), Some(e)) => choice matches ProxyChoice::Invalid(m) && m@ == e,
        },
{
    lemma_engines_chosen(baidu, google, bing);
    if let Some(k) = keywords {
        lemma_split_join(k, ',');
    }
}

/// An optional string slice taken by its view.
pub open spec fn opt_str_view(o: Option<&str>) -> Option<Seq<char>> {
    match o {
        Some(s) => Some(s@),
        None => None,
    }
}

/// The plan for a command line, given what the URL parser said of the proxy
/// address (`proxy_failure`, `None` where it parsed; not read where no
/// proxy is given).
pub fn plan_with(
    keywords: Option<&str>,
    baidu: bool,
    google: bool,
    bing: bool,
    proxy: Option<&str>,
    proxy_failure: Option<String>,
) -> (plan: Plan)
    ensures
        plan_is(plan, opt_str_view(keywords), baidu, google, bing, opt_str_view(proxy), opt_view(proxy_failure)),
{
    match keywords {
        None => Plan::NoKeywords,
        Some(k) => {
            let keywords = split_keywords(k);
            let engines = selected_engines(baidu, google, bing);
            if engines.len() == 0 {
                return Plan::NoEngines;
            }
            let choice = match proxy {
                None => ProxyChoice::Direct,
                Some(p) => match proxy_failure {
                    None => ProxyChoice::Through(p.to_owned()),
                    Some(e) => ProxyChoice::Invalid(e),
                },
            };
            Plan::Search { keywords, engines, proxy: choice }
        },
    }
}

/// The plan for a command line: no keywords, no engine, or the keywords
/// split at commas, the engines in the order baidu, google, bing, and the
/// proxy checked with the URL parser.
pub fn plan(keywords: Option<&str>, baidu: bool, google: bool, bing: bool, proxy: Option<&str>) -> (plan: Plan)
    ensures
        plan_is(
            plan,
            opt_str_view(keywords),
            baidu,
            google,
            bing,
            opt_str_view(proxy),
            match proxy {
                Some(p) => url_parse_failure(p@),
                None => None,
            },
        ),
{
    let failure = match proxy {
        Some(p) => url_parse_failure_of(p),
        None => None,
    };
    plan_with(keywords, baidu, google, bing, proxy, failure)
}

} // verus!
