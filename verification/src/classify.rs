//! The free-token classifier.
//!
//! A save command carries an ordered list of free words.  A leading
//! sigil gives a word its role: `@` names the folder, `^` the title,
//! `%` the description, `::` adds a tag; every other word is content.
//! One left-to-right pass folds the words into a request.  For the
//! single-valued roles the last word of that role wins; tags append in
//! encounter order; content words concatenate in order, each followed
//! by one separator space.  A URL flag, when it carries a value, turns
//! the request into a bookmark whose content is that value (the folder,
//! title, description and tags from the words are retained); a URL flag
//! without a value is an error, and so is a request whose final content
//! is empty or all spaces.

use vstd::prelude::*;

verus! {

/// What kind of thing is being saved: a plain memo, or a bookmark of a
/// URL.
#[derive(Clone, Copy, PartialEq, Eq, Structural, Debug)]
pub enum SaveKind {
    Memo,
    Bookmark,
}

/// Why a save command was rejected before anything was sent.
#[derive(Clone, Copy, PartialEq, Eq, Structural, Debug)]
pub enum ValidationError {
    /// The URL flag was given but carried no value.
    MissingUrlValue,
    /// After all words and flags were processed no content remained.
    NothingToSave,
}

impl ValidationError {
    /// The message shown when the rejection stops the invocation.
    pub fn message(&self) -> (r: String)
        ensures
            *self == ValidationError::MissingUrlValue ==> r@ == "Expect an URL: 'cu --url [URL]'"@,
            *self == ValidationError::NothingToSave ==> r@ == "Ops! Nothing to save."@,
    {
        match self {
            ValidationError::MissingUrlValue => String::from_str("Expect an URL: 'cu --url [URL]'"),
            ValidationError::NothingToSave => String::from_str("Ops! Nothing to save."),
        }
    }
}

/// The structured request handed to the transport: what to save and
/// under which metadata.
#[derive(Debug)]
pub struct CuboxRequest {
    pub kind: SaveKind,
    pub content: String,
    pub title: Option<String>,
    pub description: Option<String>,
    pub folder: Option<String>,
    pub tags: Vec<String>,
}

/// The mathematical shape of a request: the same fields over sequences
/// of characters.
pub struct ReqModel {
    pub kind: SaveKind,
    pub content: Seq<char>,
    pub title: Option<Seq<char>>,
    pub description: Option<Seq<char>>,
    pub folder: Option<Seq<char>>,
    pub tags: Seq<Seq<char>>,
}

impl View for CuboxRequest {
    type V = ReqModel;

    open spec fn view(&self) -> ReqModel {
        ReqModel {
            kind: self.kind,
            content: self.content@,
            title: self.title.deep_view(),
            description: self.description.deep_view(),
            folder: self.folder.deep_view(),
            tags: self.tags.deep_view(),
        }
    }
}

/// The word names the folder: it starts with `@`.
pub open spec fn is_folder_token(t: Seq<char>) -> bool {
    t.len() >= 1 && t[0] == '@'
}

/// The word names the title: it starts with `^`.
pub open spec fn is_title_token(t: Seq<char>) -> bool {
    t.len() >= 1 && t[0] == '^'
}

/// The word adds a tag: it starts with `::`.
pub open spec fn is_tag_token(t: Seq<char>) -> bool {
    t.len() >= 2 && t[0] == ':' && t[1] == ':'
}

/// The word gives the description: it starts with `%`.
pub open spec fn is_description_token(t: Seq<char>) -> bool {
    t.len() >= 1 && t[0] == '%'
}

/// The word is plain content: no sigil claims it.
pub open spec fn is_content_token(t: Seq<char>) -> bool {
    !is_folder_token(t) && !is_title_token(t) && !is_tag_token(t) && !is_description_token(t)
}

/// The folder the words select: the remainder of the last `@` word, if
/// any.
pub open spec fn folder_of(ts: Seq<Seq<char>>) -> Option<Seq<char>>
    decreases ts.len(),
{
    if ts.len() == 0 {
        None
    } else if is_folder_token(ts.last()) {
        Some(ts.last().skip(1))
    } else {
        folder_of(ts.drop_last())
    }
}

/// The title the words select: the remainder of the last `^` word, if
/// any.
pub open spec fn title_of(ts: Seq<Seq<char>>) -> Option<Seq<char>>
    decreases ts.len(),
{
    if ts.len() == 0 {
        None
    } else if is_title_token(ts.last()) {
        Some(ts.last().skip(1))
    } else {
        title_of(ts.drop_last())
    }
}

/// The description the words select: the remainder of the last `%`
/// word, if any.
pub open spec fn description_of(ts: Seq<Seq<char>>) -> Option<Seq<char>>
    decreases ts.len(),
{
    if ts.len() == 0 {
        None
    } else if is_description_token(ts.last()) {
        Some(ts.last().skip(1))
    } else {
        description_of(ts.drop_last())
    }
}

/// The tags the words select: the remainders of every `::` word, in
/// encounter order, duplicates kept.
pub open spec fn tags_of(ts: Seq<Seq<char>>) -> Seq<Seq<char>>
    decreases ts.len(),
{
    if ts.len() == 0 {
        Seq::empty()
    } else if is_tag_token(ts.last()) {
        tags_of(ts.drop_last()).push(ts.last().skip(2))
    } else {
        tags_of(ts.drop_last())
    }
}

/// The content the words accumulate: every content word in order, each
/// followed by one separator space.
pub open spec fn content_of(ts: Seq<Seq<char>>) -> Seq<char>
    decreases ts.len(),
{
    if ts.len() == 0 {
        Seq::empty()
    } else if is_content_token(ts.last()) {
        content_of(ts.drop_last()) + ts.last() + seq![' ']
    } else {
        content_of(ts.drop_last())
    }
}

/// Nothing but spaces: such content counts as nothing to save.
pub open spec fn is_blank(s: Seq<char>) -> bool {
    forall|i: int| 0 <= i < s.len() ==> s[i] == ' '
}

/// The whole classification, as a specification: the request the words
/// and the URL flag determine, or the error that rejects them.  A URL
/// flag without a value is rejected first; a URL value replaces the
/// accumulated content and makes the request a bookmark; a final
/// content of nothing but spaces is rejected last.
pub open spec fn classify_spec(ts: Seq<Seq<char>>, url: Option<Option<Seq<char>>>) -> Result<
    ReqModel,
    ValidationError,
> {
    match url {
        Some(None) => Err(ValidationError::MissingUrlValue),
        Some(Some(u)) => if is_blank(u) {
            Err(ValidationError::NothingToSave)
        } else {
            Ok(
                ReqModel {
                    kind: SaveKind::Bookmark,
                    content: u,
                    title: title_of(ts),
                    description: description_of(ts),
                    folder: folder_of(ts),
                    tags: tags_of(ts),
                },
            )
        },
        None => if is_blank(content_of(ts)) {
            Err(ValidationError::NothingToSave)
        } else {
            Ok(
                ReqModel {
                    kind: SaveKind::Memo,
                    content: content_of(ts),
                    title: title_of(ts),
                    description: description_of(ts),
                    folder: folder_of(ts),
                    tags: tags_of(ts),
                },
            )
        },
    }
}

/// Independence law: one more word affects exactly its designated
/// field.  Whatever words came before, appending a word of one class
/// updates that class's field as the class prescribes and leaves every
/// other field exactly as it was.
pub proof fn lemma_token_independence(ts: Seq<Seq<char>>, t: Seq<char>)
    ensures
        is_folder_token(t) ==> folder_of(ts.push(t)) == Some(t.skip(1)) && title_of(ts.push(t))
            == title_of(ts) && description_of(ts.push(t)) == description_of(ts) && tags_of(
            ts.push(t),
        ) == tags_of(ts) && content_of(ts.push(t)) == content_of(ts),
        is_title_token(t) ==> title_of(ts.push(t)) == Some(t.skip(1)) && folder_of(ts.push(t))
            == folder_of(ts) && description_of(ts.push(t)) == description_of(ts) && tags_of(
            ts.push(t),
        ) == tags_of(ts) && content_of(ts.push(t)) == content_of(ts),
        is_tag_token(t) ==> tags_of(ts.push(t)) == tags_of(ts).push(t.skip(2)) && folder_of(
            ts.push(t),
        ) == folder_of(ts) && title_of(ts.push(t)) == title_of(ts) && description_of(ts.push(t))
            == description_of(ts) && content_of(ts.push(t)) == content_of(ts),
        is_description_token(t) ==> description_of(ts.push(t)) == Some(t.skip(1)) && folder_of(
            ts.push(t),
        ) == folder_of(ts) && title_of(ts.push(t)) == title_of(ts) && tags_of(ts.push(t))
            == tags_of(ts) && content_of(ts.push(t)) == content_of(ts),
        is_content_token(t) ==> content_of(ts.push(t)) == content_of(ts) + t + seq![' ']
            && folder_of(ts.push(t)) == folder_of(ts) && title_of(ts.push(t)) == title_of(ts)
            && description_of(ts.push(t)) == description_of(ts) && tags_of(ts.push(t)) == tags_of(
            ts,
        ),
{
    assert(ts.push(t).drop_last() =~= ts);
    assert(ts.push(t).last() == t);
}

/// Overwrite law for the folder: with no `@` word the field stays
/// absent, and with at least one the last `@` word alone decides it,
/// whatever stood before.
pub proof fn lemma_overwrite_folder(ts: Seq<Seq<char>>)
    ensures
        (forall|i: int| 0 <= i < ts.len() ==> !is_folder_token(#[trigger] ts[i])) ==> folder_of(ts)
            is None,
        forall|i: int|
            0 <= i < ts.len() && is_folder_token(#[trigger] ts[i]) && (forall|j: int|
                i < j < ts.len() ==> !is_folder_token(#[trigger] ts[j])) ==> folder_of(ts) == Some(
                ts[i].skip(1),
            ),
    decreases ts.len(),
{
    if ts.len() > 0 {
        let dl = ts.drop_last();
        lemma_overwrite_folder(dl);
        assert forall|i: int|
            0 <= i < ts.len() && is_folder_token(#[trigger] ts[i]) && (forall|j: int|
                i < j < ts.len() ==> !is_folder_token(#[trigger] ts[j])) implies folder_of(ts)
            == Some(ts[i].skip(1)) by {
            if i == ts.len() - 1 {
                assert(folder_of(ts) == Some(ts.last().skip(1)));
            } else {
                assert(!is_folder_token(ts[ts.len() - 1]));
                assert(folder_of(ts) == folder_of(dl));
                assert(is_folder_token(dl[i]));
                assert(forall|j: int| i < j < dl.len() ==> !is_folder_token(#[trigger] dl[j]));
            }
        }
        if forall|i: int| 0 <= i < ts.len() ==> !is_folder_token(#[trigger] ts[i]) {
            assert(!is_folder_token(ts[ts.len() - 1]));
            assert(forall|i: int| 0 <= i < dl.len() ==> !is_folder_token(#[trigger] dl[i]));
        }
    }
}

/// Overwrite law for the title: the same, for `^` words.
pub proof fn lemma_overwrite_title(ts: Seq<Seq<char>>)
    ensures
        (forall|i: int| 0 <= i < ts.len() ==> !is_title_token(#[trigger] ts[i])) ==> title_of(ts)
            is None,
        forall|i: int|
            0 <= i < ts.len() && is_title_token(#[trigger] ts[i]) && (forall|j: int|
                i < j < ts.len() ==> !is_title_token(#[trigger] ts[j])) ==> title_of(ts) == Some(
                ts[i].skip(1),
            ),
    decreases ts.len(),
{
    if ts.len() > 0 {
        let dl = ts.drop_last();
        lemma_overwrite_title(dl);
        assert forall|i: int|
            0 <= i < ts.len() && is_title_token(#[trigger] ts[i]) && (forall|j: int|
                i < j < ts.len() ==> !is_title_token(#[trigger] ts[j])) implies title_of(ts)
            == Some(ts[i].skip(1)) by {
            if i == ts.len() - 1 {
                assert(title_of(ts) == Some(ts.last().skip(1)));
            } else {
                assert(!is_title_token(ts[ts.len() - 1]));
                assert(title_of(ts) == title_of(dl));
                assert(is_title_token(dl[i]));
                assert(forall|j: int| i < j < dl.len() ==> !is_title_token(#[trigger] dl[j]));
            }
        }
        if forall|i: int| 0 <= i < ts.len() ==> !is_title_token(#[trigger] ts[i]) {
            assert(!is_title_token(ts[ts.len() - 1]));
            assert(forall|i: int| 0 <= i < dl.len() ==> !is_title_token(#[trigger] dl[i]));
        }
    }
}

/// Overwrite law for the description: the same, for `%` words.
pub proof fn lemma_overwrite_description(ts: Seq<Seq<char>>)
    ensures
        (forall|i: int| 0 <= i < ts.len() ==> !is_description_token(#[trigger] ts[i]))
            ==> description_of(ts) is None,
        forall|i: int|
            0 <= i < ts.len() && is_description_token(#[trigger] ts[i]) && (forall|j: int|
                i < j < ts.len() ==> !is_description_token(#[trigger] ts[j])) ==> description_of(
                ts,
            ) == Some(ts[i].skip(1)),
    decreases ts.len(),
{
    if ts.len() > 0 {
        let dl = ts.drop_last();
        lemma_overwrite_description(dl);
        assert forall|i: int|
            0 <= i < ts.len() && is_description_token(#[trigger] ts[i]) && (forall|j: int|
                i < j < ts.len() ==> !is_description_token(#[trigger] ts[j])) implies
            description_of(ts) == Some(ts[i].skip(1)) by {
            if i == ts.len() - 1 {
                assert(description_of(ts) == Some(ts.last().skip(1)));
            } else {
                assert(!is_description_token(ts[ts.len() - 1]));
                assert(description_of(ts) == description_of(dl));
                assert(is_description_token(dl[i]));
                assert(forall|j: int|
                    i < j < dl.len() ==> !is_description_token(#[trigger] dl[j]));
            }
        }
        if forall|i: int| 0 <= i < ts.len() ==> !is_description_token(#[trigger] ts[i]) {
            assert(!is_description_token(ts[ts.len() - 1]));
            assert(forall|i: int| 0 <= i < dl.len() ==> !is_description_token(#[trigger] dl[i]));
        }
    }
}

/// Append law for tags: the tags are exactly the remainders of the
/// `::` words, in encounter order, duplicates kept — a filter of the
/// word list, never an overwrite.
pub proof fn lemma_tags_append_law(ts: Seq<Seq<char>>)
    ensures
        tags_of(ts) == ts.filter(|t: Seq<char>| is_tag_token(t)).map_values(
            |t: Seq<char>| t.skip(2),
        ),
    decreases ts.len(),
{
    reveal(Seq::filter);
    let pred = |t: Seq<char>| is_tag_token(t);
    let strip = |t: Seq<char>| t.skip(2);
    if ts.len() == 0 {
        assert(ts.filter(pred).map_values(strip) =~= Seq::<Seq<char>>::empty());
    } else {
        let dl = ts.drop_last();
        lemma_tags_append_law(dl);
        if is_tag_token(ts.last()) {
            assert(ts.filter(pred) == dl.filter(pred).push(ts.last()));
            assert(ts.filter(pred).map_values(strip) =~= dl.filter(pred).map_values(strip).push(
                ts.last().skip(2),
            ));
        } else {
            assert(ts.filter(pred) == dl.filter(pred));
        }
    }
}

/// Is the string nothing but spaces?
fn content_is_blank(s: &String) -> (r: bool)
    ensures
        r == is_blank(s@),
{
    let n = s.as_str().unicode_len();
    let mut i: usize = 0;
    while i < n
        invariant
            i <= n,
            n == s@.len(),
            forall|j: int| 0 <= j < i ==> s@[j] == ' ',
        decreases n - i,
    {
        if s.as_str().get_char(i) != ' ' {
            return false;
        }
        i += 1;
    }
    true
}

/// Classify the ordered free words of one save command, under the URL
/// flag (`None`: not given; `Some(None)`: given without a value;
/// `Some(Some(u))`: given with value `u`), into a complete request or a
/// rejection.
pub fn classify(free_tokens: &Vec<String>, url_flag: &Option<Option<String>>) -> (r: Result<
    CuboxRequest,
    ValidationError,
>)
    ensures
        match (r, classify_spec(free_tokens.deep_view(), url_flag.deep_view())) {
            (Ok(req), Ok(m)) => req@ == m,
            (Err(e), Err(me)) => e == me,
            _ => false,
        },
{
    let ghost ts = free_tokens.deep_view();
    let mut req = CuboxRequest {
        kind: SaveKind::Memo,
        content: String::new(),
        title: None,
        description: None,
        folder: None,
        tags: Vec::new(),
    };
    let mut i: usize = 0;
    proof {
        assert(ts.take(0 as int) =~= Seq::<Seq<char>>::empty());
    }
    while i < free_tokens.len()
        invariant
            i <= free_tokens.len(),
            ts == free_tokens.deep_view(),
            ts.len() == free_tokens.len(),
            req.kind == SaveKind::Memo,
            req.content@ == content_of(ts.take(i as int)),
            req.title.deep_view() == title_of(ts.take(i as int)),
            req.description.deep_view() == description_of(ts.take(i as int)),
            req.folder.deep_view() == folder_of(ts.take(i as int)),
            req.tags.deep_view() == tags_of(ts.take(i as int)),
        decreases free_tokens.len() - i,
    {
        let t = &free_tokens[i];
        proof {
            assert(ts[i as int] == t@);
            assert(ts.take(i + 1 as int).drop_last() =~= ts.take(i as int));
            assert(ts.take(i + 1 as int).last() == t@);
        }
        let n = t.as_str().unicode_len();
        if n >= 1 && t.as_str().get_char(0) == '@' {
            req.folder = Some(t.as_str().substring_char(1, n).to_owned());
            proof {
                assert(t@.subrange(1, t@.len() as int) =~= t@.skip(1));
            }
        } else if n >= 1 && t.as_str().get_char(0) == '^' {
            req.title = Some(t.as_str().substring_char(1, n).to_owned());
            proof {
                assert(t@.subrange(1, t@.len() as int) =~= t@.skip(1));
            }
        } else if n >= 2 && t.as_str().get_char(0) == ':' && t.as_str().get_char(1) == ':' {
            req.tags.push(t.as_str().substring_char(2, n).to_owned());
            proof {
                assert(t@.subrange(2, t@.len() as int) =~= t@.skip(2));
                assert(req.tags.deep_view() =~= tags_of(ts.take(i + 1 as int)));
            }
        } else if n >= 1 && t.as_str().get_char(0) == '%' {
            req.description = Some(t.as_str().substring_char(1, n).to_owned());
            proof {
                assert(t@.subrange(1, t@.len() as int) =~= t@.skip(1));
            }
        } else {
            req.content.append(t.as_str());
            req.content.append(" ");
            proof {
                reveal_strlit(" ");
                assert(" "@ =~= seq![' ']);
                assert(req.content@ =~= content_of(ts.take(i + 1 as int)));
            }
        }
        i += 1;
    }
    proof {
        assert(ts.take(free_tokens.len() as int) =~= ts);
    }
    match url_flag {
        Some(Some(u)) => {
            req.kind = SaveKind::Bookmark;
            req.content = u.clone();
        },
        Some(None) => {
            return Err(ValidationError::MissingUrlValue);
        },
        None => {},
    }
    if content_is_blank(&req.content) {
        return Err(ValidationError::NothingToSave);
    }
    Ok(req)
}

} // verus!
