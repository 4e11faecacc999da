//! Builders for IMAP `SEARCH` / `UID SEARCH` criteria.

use vstd::prelude::*;
use vstd::string::StringExecFns;

use crate::credentials::{escape_quoted_specials, escaped};

verus! {

/// A single search criterion in an IMAP `SEARCH` command.
#[derive(Debug)]
pub enum SearchKey {
    /// `FROM` — messages whose `From` header contains the substring.
    From(String),
    /// `TO` — messages whose `To` header contains the substring.
    To(String),
    /// `SUBJECT` — messages whose `Subject` header contains the substring.
    Subject(String),
    /// `BODY` — messages whose body contains the substring.
    Body(String),
    /// `TEXT` — messages whose header or body contains the substring.
    Text(String),
    /// `ALL` — every message in the mailbox.
    All,
    /// `ANSWERED` — messages with the `\Answered` flag.
    Answered,
    /// `DELETED` — messages with the `\Deleted` flag.
    Deleted,
    /// `DRAFT` — messages with the `\Draft` flag.
    Draft,
    /// `FLAGGED` — messages with the `\Flagged` flag.
    Flagged,
    /// `RECENT` — messages with the `\Recent` flag.
    Recent,
    /// `SEEN` — messages with the `\Seen` flag.
    Seen,
    /// `UNANSWERED` — messages without the `\Answered` flag.
    Unanswered,
    /// `UNDELETED` — messages without the `\Deleted` flag.
    Undeleted,
    /// `UNDRAFT` — messages without the `\Draft` flag.
    Undraft,
    /// `UNFLAGGED` — messages without the `\Flagged` flag.
    Unflagged,
    /// `UNSEEN` — messages without the `\Seen` flag.
    Unseen,
    /// Conjunction — all of the contained keys must match (space-joined).
    And(Vec<SearchKey>),
    /// `OR` — either of the two keys must match.
    Or(Box<SearchKey>, Box<SearchKey>),
    /// `NOT` — the contained key must not match.
    Not(Box<SearchKey>),
}

/// A keyword followed by an argument as an IMAP quoted string, as the
/// string-valued keys render: `KEYWORD "arg"`, with each `"` and `\` of the
/// argument escaped by `\`.
pub open spec fn keyed_text(keyword_and_quote: Seq<char>, arg: Seq<char>) -> Seq<char> {
    keyword_and_quote + escaped(arg) + seq!['"']
}

/// The IMAP search-key text of `k`.
pub open spec fn key_text(k: SearchKey) -> Seq<char>
    decreases k,
{
    match k {
        SearchKey::From(s) => keyed_text("FROM \""@, s@),
        SearchKey::To(s) => keyed_text("TO \""@, s@),
        SearchKey::Subject(s) => keyed_text("SUBJECT \""@, s@),
        SearchKey::Body(s) => keyed_text("BODY \""@, s@),
        SearchKey::Text(s) => keyed_text("TEXT \""@, s@),
        SearchKey::All => "ALL"@,
        SearchKey::Answered => "ANSWERED"@,
        SearchKey::Deleted => "DELETED"@,
        SearchKey::Draft => "DRAFT"@,
        SearchKey::Flagged => "FLAGGED"@,
        SearchKey::Recent => "RECENT"@,
        SearchKey::Seen => "SEEN"@,
        SearchKey::Unanswered => "UNANSWERED"@,
        SearchKey::Undeleted => "UNDELETED"@,
        SearchKey::Undraft => "UNDRAFT"@,
        SearchKey::Unflagged => "UNFLAGGED"@,
        SearchKey::Unseen => "UNSEEN"@,
        SearchKey::And(keys) => keys_text(keys@, keys@.len() as int),
        SearchKey::Or(l, r) => "OR ("@ + key_text(*l) + ") ("@ + key_text(*r) + seq![')'],
        SearchKey::Not(n) => "NOT ("@ + key_text(*n) + seq![')'],
    }
}

/// The texts of the first `n` keys of `keys`, separated by single spaces.
pub open spec fn keys_text(keys: Seq<SearchKey>, n: int) -> Seq<char>
    decreases keys, n,
{
    if n <= 0 || n > keys.len() {
        Seq::empty()
    } else if n == 1 {
        key_text(keys[0])
    } else {
        keys_text(keys, n - 1) + seq![' '] + key_text(keys[n - 1])
    }
}

impl SearchKey {
    /// Render this criterion as an IMAP search-key string suitable for a
    /// `SEARCH` command.
    pub fn to_imap_string(&self) -> (r: String)
        ensures
            r@ == key_text(*self),
        decreases self,
    {
        match self {
            SearchKey::From(s) => keyed("FROM \"", s),
            SearchKey::To(s) => keyed("TO \"", s),
            SearchKey::Subject(s) => keyed("SUBJECT \"", s),
            SearchKey::Body(s) => keyed("BODY \"", s),
            SearchKey::Text(s) => keyed("TEXT \"", s),
            SearchKey::All => String::from_str("ALL"),
            SearchKey::Answered => String::from_str("ANSWERED"),
            SearchKey::Deleted => String::from_str("DELETED"),
            SearchKey::Draft => String::from_str("DRAFT"),
            SearchKey::Flagged => String::from_str("FLAGGED"),
            SearchKey::Recent => String::from_str("RECENT"),
            SearchKey::Seen => String::from_str("SEEN"),
            SearchKey::Unanswered => String::from_str("UNANSWERED"),
            SearchKey::Undeleted => String::from_str("UNDELETED"),
            SearchKey::Undraft => String::from_str("UNDRAFT"),
            SearchKey::Unflagged => String::from_str("UNFLAGGED"),
            SearchKey::Unseen => String::from_str("UNSEEN"),
            SearchKey::And(keys) => {
                let mut out = String::new();
                let mut i: usize = 0;
                while i < keys.len()
                    invariant
                        i <= keys@.len(),
                        *self == SearchKey::And(*keys),
                        out@ == keys_text(keys@, i as int),
                    decreases keys@.len() - i,
                {
                    if i > 0 {
                        out.append(" ");
                        proof {
                            reveal_strlit(" ");
                        }
                    }
                    proof {
                        assert(decreases_to!(*self => (*self)->And_0));
                        assert(decreases_to!(keys => keys@));
                        assert(decreases_to!(keys@ => keys@[i as int]));
                    }
                    let t = keys[i].to_imap_string();
                    out.append(t.as_str());
                    i += 1;
                }
                out
            },
            SearchKey::Or(l, r) => {
                let mut out = String::from_str("OR (");
                let lt = l.to_imap_string();
                out.append(lt.as_str());
                out.append(") (");
                let rt = r.to_imap_string();
                out.append(rt.as_str());
                out.append(")");
                proof {
                    reveal_strlit(")");
                }
                out
            },
            SearchKey::Not(n) => {
                let mut out = String::from_str("NOT (");
                let nt = n.to_imap_string();
                out.append(nt.as_str());
                out.append(")");
                proof {
                    reveal_strlit(")");
                }
                out
            },
        }
    }
}

/// Two runs of keys that render key by key alike render alike.
proof fn lemma_keys_text_same(a: Seq<SearchKey>, b: Seq<SearchKey>, n: int)
    requires
        a.len() == b.len(),
        forall|j: int| 0 <= j < a.len() ==> key_text(#[trigger] a[j]) == key_text(b[j]),
    ensures
        keys_text(a, n) == keys_text(b, n),
    decreases n,
{
    if n > 1 && n <= a.len() {
        lemma_keys_text_same(a, b, n - 1);
        assert(key_text(a[n - 1]) == key_text(b[n - 1]));
    } else if n == 1 && a.len() >= 1 {
        assert(key_text(a[0]) == key_text(b[0]));
    }
}

impl Clone for SearchKey {
    /// A deep copy of the criterion tree.
    fn clone(&self) -> (r: Self)
        ensures
            key_text(r) == key_text(*self),
        decreases self,
    {
        match self {
            SearchKey::From(s) => SearchKey::From(s.clone()),
            SearchKey::To(s) => SearchKey::To(s.clone()),
            SearchKey::Subject(s) => SearchKey::Subject(s.clone()),
            SearchKey::Body(s) => SearchKey::Body(s.clone()),
            SearchKey::Text(s) => SearchKey::Text(s.clone()),
            SearchKey::All => SearchKey::All,
            SearchKey::Answered => SearchKey::Answered,
            SearchKey::Deleted => SearchKey::Deleted,
            SearchKey::Draft => SearchKey::Draft,
            SearchKey::Flagged => SearchKey::Flagged,
            SearchKey::Recent => SearchKey::Recent,
            SearchKey::Seen => SearchKey::Seen,
            SearchKey::Unanswered => SearchKey::Unanswered,
            SearchKey::Undeleted => SearchKey::Undeleted,
            SearchKey::Undraft => SearchKey::Undraft,
            SearchKey::Unflagged => SearchKey::Unflagged,
            SearchKey::Unseen => SearchKey::Unseen,
            SearchKey::And(keys) => {
                let mut out: Vec<SearchKey> = Vec::new();
                let mut i: usize = 0;
                while i < keys.len()
                    invariant
                        i <= keys@.len(),
                        *self == SearchKey::And(*keys),
                        out@.len() == i,
                        forall|j: int| 0 <= j < i ==> key_text(#[trigger] out@[j]) == key_text(keys@[j]),
                    decreases keys@.len() - i,
                {
                    proof {
                        assert(decreases_to!(*self => (*self)->And_0));
                        assert(decreases_to!(keys => keys@));
                        assert(decreases_to!(keys@ => keys@[i as int]));
                    }
                    let k = keys[i].clone();
                    out.push(k);
                    i += 1;
                }
                proof {
                    lemma_keys_text_same(out@, keys@, out@.len() as int);
                }
                SearchKey::And(out)
            },
            SearchKey::Or(l, r) => {
                let lc = (**l).clone();
                let rc = (**r).clone();
                SearchKey::Or(Box::new(lc), Box::new(rc))
            },
            SearchKey::Not(n) => {
                let nc = (**n).clone();
                SearchKey::Not(Box::new(nc))
            },
        }
    }
}

/// `prefix`, then `arg`, then a closing double quote.
fn keyed(prefix: &str, arg: &String) -> (r: String)
    ensures
        r@ == keyed_text(prefix@, arg@),
{
    let mut out = String::from_str(prefix);
    let e = escape_quoted_specials(arg.as_str());
    out.append(e.as_str());
    out.append("\"");
    proof {
        reveal_strlit("\"");
    }
    out
}

/// A convenience builder that wraps a single [`SearchKey`] and renders it to
/// the IMAP search-key string.
pub struct SearchQuery {
    key: SearchKey,
}

impl View for SearchQuery {
    type V = SearchKey;

    closed spec fn view(&self) -> SearchKey {
        self.key
    }
}

impl SearchQuery {
    /// Build a query from an arbitrary [`SearchKey`] (including compound
    /// `And` / `Or` / `Not` trees).
    pub fn new(key: SearchKey) -> (r: Self)
        ensures
            r@ == key,
    {
        Self { key }
    }

    /// Shorthand for a `FROM` search.
    pub fn from(addr: &str) -> (r: Self)
        ensures
            r@ matches SearchKey::From(s) && s@ == addr@,
    {
        Self::new(SearchKey::From(addr.to_owned()))
    }

    /// Shorthand for a `TO` search.
    pub fn to(addr: &str) -> (r: Self)
        ensures
            r@ matches SearchKey::To(s) && s@ == addr@,
    {
        Self::new(SearchKey::To(addr.to_owned()))
    }

    /// Shorthand for a `SUBJECT` search.
    pub fn subject(text: &str) -> (r: Self)
        ensures
            r@ matches SearchKey::Subject(s) && s@ == text@,
    {
        Self::new(SearchKey::Subject(text.to_owned()))
    }

    /// Consume the builder and render the IMAP search-key string.
    pub fn build(self) -> (r: String)
        ensures
            r@ == key_text(self@),
    {
        self.key.to_imap_string()
    }
}

} // verus!
