//! Serving the table: the works it holds, the queries that pick among them,
//! and the forms in which they are put out.

use vstd::prelude::*;
use vstd::string::*;
use rand::seq::SliceRandom;
use crate::chars::{
    chars_of, code, contains, cut, includes, position_of, replace, replace_all, scan,
};
use crate::models::{copy_opt, opt_view};
use crate::order::{dedup_texts, sort_texts, text_order, texts_view, without_repeats};

verus! {

/// One row of the table: a work and its opening.
#[derive(Debug, Clone, PartialEq, Eq)]
pub struct Work {
    pub author: String,
    pub title: String,
    pub text: String,
    pub url: Option<String>,
}

/// The text of a work, field by field.
pub struct WorkView {
    pub author: Seq<char>,
    pub title: Seq<char>,
    pub text: Seq<char>,
    pub url: Option<Seq<char>>,
}

impl View for Work {
    type V = WorkView;

    open spec fn view(&self) -> WorkView {
        WorkView {
            author: self.author@,
            title: self.title@,
            text: self.text@,
            url: opt_view(self.url),
        }
    }
}

/// The field of a work that a query looks into.
#[derive(Debug, Clone, Copy, PartialEq, Eq)]
pub enum QueryKey {
    Author,
    Title,
    Text,
}

/// A filter: the works whose field `key` holds `value`.
#[derive(Debug, Clone)]
pub struct Query {
    pub key: QueryKey,
    pub value: String,
}

/// The text of a query.
pub struct QueryView {
    pub key: QueryKey,
    pub value: Seq<char>,
}

impl View for Query {
    type V = QueryView;

    open spec fn view(&self) -> QueryView {
        QueryView { key: self.key, value: self.value@ }
    }
}

/// The forms of output.
#[derive(Debug, Clone, Copy, PartialEq, Eq)]
pub enum Format {
    /// The text of each work, one per line.
    Plain,
    /// Each work through a template.
    Quote,
    /// The rows as comma-separated values.
    Csv,
    /// The rows as JSON.
    Json,
}

/// The code point of `c`, with a capital letter of ASCII taken as its small
/// letter.
pub open spec fn lower_code(c: char) -> int {
    if 'A' as int <= c as int <= 'Z' as int {
        c as int + 32
    } else {
        c as int
    }
}

/// `a` and `b` are the same but for the case of ASCII letters.
pub open spec fn same_ignoring_case(a: Seq<char>, b: Seq<char>) -> bool {
    a.len() == b.len() && forall|i: int| 0 <= i < a.len() ==> lower_code(a[i]) == lower_code(b[i])
}

/// The key that `name` names, whatever the case of its letters.
pub open spec fn key_named(name: Seq<char>) -> Option<QueryKey> {
    if same_ignoring_case("author"@, name) {
        Some(QueryKey::Author)
    } else if same_ignoring_case("title"@, name) {
        Some(QueryKey::Title)
    } else if same_ignoring_case("text"@, name) {
        Some(QueryKey::Text)
    } else {
        None
    }
}

/// What a filter written as `key=value` means. The first `=` parts key and
/// value. `Err(false)` stands for a filter without `=`, `Err(true)` for one
/// whose key is unknown.
pub open spec fn query_of(s: Seq<char>) -> Result<QueryView, bool> {
    let p = position_of(s, '=');
    if !(0 <= p < s.len()) {
        Err(false)
    } else {
        match key_named(s.take(p)) {
            None => Err(true),
            Some(key) => Ok(QueryView { key, value: s.skip(p + 1) }),
        }
    }
}

/// What is said of a filter without `=`.
pub open spec fn no_equals_message() -> Seq<char> {
    "Invalid filter format. Use key=value."@
}

/// What is said of a filter with an unknown key.
pub open spec fn unknown_key_message() -> Seq<char> {
    "Invalid filter key. Valid keys: author, title."@
}

/// The code point of `c`, a capital letter of ASCII taken as its small
/// letter.
fn lower(c: char) -> (n: u32)
    ensures
        n as int == lower_code(c),
{
    let n: u32 = code(c);
    if 65 <= n && n <= 90 {
        n + 32
    } else {
        n
    }
}

/// Whether `a` and `b` are the same but for the case of ASCII letters.
pub fn eq_ignoring_case(a: &Vec<char>, b: &Vec<char>) -> (r: bool)
    ensures
        r == same_ignoring_case(a@, b@),
{
    if a.len() != b.len() {
        return false;
    }
    let mut i: usize = 0;
    while i < a.len()
        invariant
            i <= a.len(),
            a.len() == b.len(),
            forall|j: int| 0 <= j < i ==> lower_code(a@[j]) == lower_code(b@[j]),
        decreases a.len() - i,
    {
        let x: char = a[i];
        let y: char = b[i];
        if lower(x) != lower(y) {
            return false;
        }
        i += 1;
    }
    true
}

impl QueryKey {
    /// The key that `name` names, whatever the case of its letters.
    pub fn named(name: &str) -> (r: Option<QueryKey>)
        ensures
            r == key_named(name@),
    {
        let n = chars_of(name);
        if eq_ignoring_case(&chars_of("author"), &n) {
            Some(QueryKey::Author)
        } else if eq_ignoring_case(&chars_of("title"), &n) {
            Some(QueryKey::Title)
        } else if eq_ignoring_case(&chars_of("text"), &n) {
            Some(QueryKey::Text)
        } else {
            None
        }
    }
}

impl Query {
    /// Reads a filter written as `key=value`.
    pub fn parse(s: &str) -> (r: Result<Query, String>)
        ensures
            match r {
                Ok(q) => query_of(s@) == Ok::<QueryView, bool>(q@),
                Err(e) => match query_of(s@) {
                    Ok(_) => false,
                    Err(unknown_key) => e@ == if unknown_key {
                        unknown_key_message()
                    } else {
                        no_equals_message()
                    },
                },
            },
    {
        let h = chars_of(s);
        let p = scan(&h, 0, h.len(), '=');
        assert(h@.subrange(0, h.len() as int) =~= h@);
        if p == h.len() {
            return Err(String::from_str("Invalid filter format. Use key=value."));
        }
        let name = cut(s, 0, p);
        assert(name@ =~= s@.take(p as int));
        match QueryKey::named(name.as_str()) {
            None => Err(String::from_str("Invalid filter key. Valid keys: author, title.")),
            Some(key) => {
                let value = cut(s, p + 1, h.len());
                assert(value@ =~= s@.skip(p + 1));
                Ok(Query { key, value })
            },
        }
    }
}

impl std::str::FromStr for Query {
    type Err = String;

    /// Reads a filter written as `key=value`: the query that `query_of`
    /// gives, or what is said of a filter without `=` or with an unknown
    /// key.
    fn from_str(s: &str) -> (r: Result<Query, String>)
        ensures
            match r {
                Ok(q) => query_of(s@) == Ok::<QueryView, bool>(q@),
                Err(e) => match query_of(s@) {
                    Ok(_) => false,
                    Err(unknown_key) => e@ == if unknown_key {
                        unknown_key_message()
                    } else {
                        no_equals_message()
                    },
                },
            },
    {
        Query::parse(s)
    }
}

/// A template says where something of the work goes.
pub open spec fn has_placeholder(s: Seq<char>) -> bool {
    ||| contains(s, "{author}"@)
    ||| contains(s, "{title}"@)
    ||| contains(s, "{text}"@)
    ||| contains(s, "{url}"@)
}

/// What is said of a template without a placeholder.
pub open spec fn no_placeholder_message() -> Seq<char> {
    "Template must contain at least one of the placeholders: {author}, {title}, {text}, {url}"@
}

/// Accepts a template that holds at least one of the placeholders
/// `{author}`, `{title}`, `{text}` and `{url}`, and hands it back.
pub fn template_validator(s: &str) -> (r: Result<String, String>)
    ensures
        match r {
            Ok(t) => has_placeholder(s@) && t@ == s@,
            Err(e) => !has_placeholder(s@) && e@ == no_placeholder_message(),
        },
{
    let h = chars_of(s);
    if includes(&h, &chars_of("{author}")) || includes(&h, &chars_of("{title}")) || includes(
        &h,
        &chars_of("{text}"),
    ) || includes(&h, &chars_of("{url}")) {
        Ok(String::from_str(s))
    } else {
        Err(
            String::from_str(
                "Template must contain at least one of the placeholders: {author}, {title}, {text}, {url}",
            ),
        )
    }
}

/// What can be wrong with the arguments as a whole.
#[derive(Debug, Clone, Copy, PartialEq, Eq)]
pub enum ArgsError {
    /// A template was given for a format other than `Quote`.
    TemplateWithoutQuote,
}

impl ArgsError {
    /// What is said of the error.
    pub fn message(&self) -> (out: String)
        ensures
            out@ == "--template can only be used with --format quote"@,
    {
        String::from_str("--template can only be used with --format quote")
    }
}

/// What the caller asked for.
#[derive(Debug, Clone)]
pub struct Args {
    /// How many works to put out.
    pub number: usize,
    /// Put out all of them.
    pub all: bool,
    /// Keep the order of the table.
    pub no_random: bool,
    /// The filters.
    pub query: Vec<Query>,
    /// Let the caller pick author and title.
    pub interactive: bool,
    /// The form of output.
    pub format: Format,
    /// The template for the form `Quote`.
    pub template: Option<String>,
}

impl Args {
    /// A template goes with the form `Quote` only.
    pub open spec fn consistent(&self) -> bool {
        self.template is Some ==> self.format == Format::Quote
    }

    /// Checks that a template is given for the form `Quote` only.
    pub fn validate(&self) -> (r: Result<(), ArgsError>)
        ensures
            r is Ok <==> self.consistent(),
            r is Err ==> r == Err::<(), ArgsError>(ArgsError::TemplateWithoutQuote),
    {
        if self.template.is_some() {
            match self.format {
                Format::Quote => Ok(()),
                _ => Err(ArgsError::TemplateWithoutQuote),
            }
        } else {
            Ok(())
        }
    }
}

/// The views of a run of works.
pub open spec fn catalog_view(works: Seq<Work>) -> Seq<WorkView> {
    works.map_values(|w: Work| w@)
}

/// The views of a run of queries.
pub open spec fn queries_view(queries: Seq<Query>) -> Seq<QueryView> {
    queries.map_values(|q: Query| q@)
}

/// The field of `work` that `key` names.
pub open spec fn field_of(work: WorkView, key: QueryKey) -> Seq<char> {
    match key {
        QueryKey::Author => work.author,
        QueryKey::Title => work.title,
        QueryKey::Text => work.text,
    }
}

/// `work` meets every one of `queries`: each field asked for holds the value
/// asked for.
pub open spec fn meets_all(work: WorkView, queries: Seq<QueryView>) -> bool {
    forall|i: int|
        0 <= i < queries.len() ==> contains(
            field_of(work, (#[trigger] queries[i]).key),
            queries[i].value,
        )
}

/// Those of `works` that meet every one of `queries`, in their order.
pub open spec fn kept(works: Seq<WorkView>, queries: Seq<QueryView>) -> Seq<WorkView>
    decreases works.len(),
{
    if works.len() == 0 {
        Seq::empty()
    } else if meets_all(works.last(), queries) {
        kept(works.drop_last(), queries).push(works.last())
    } else {
        kept(works.drop_last(), queries)
    }
}

/// The titles of those of `works` whose author's name holds `author`, in
/// their order.
pub open spec fn titles_by(works: Seq<WorkView>, author: Seq<char>) -> Seq<Seq<char>>
    decreases works.len(),
{
    if works.len() == 0 {
        Seq::empty()
    } else if contains(works.last().author, author) {
        titles_by(works.drop_last(), author).push(works.last().title)
    } else {
        titles_by(works.drop_last(), author)
    }
}

/// The authors' names of `works`, in their order.
pub open spec fn names_in(works: Seq<WorkView>) -> Seq<Seq<char>> {
    works.map_values(|w: WorkView| w.author)
}

/// The template used where none is given.
pub open spec fn default_template() -> Seq<char> {
    "{text}｜{author}『{title}』"@
}

/// A work through a template: `\n`, written as backslash and `n`, becomes a
/// line feed; then `{author}`, `{title}`, `{text}` and `{url}` give way, in
/// this order, to what the work holds, `{url}` to nothing where it has no
/// address.
pub open spec fn rendered(template: Seq<char>, work: WorkView) -> Seq<char> {
    let broken = replace_all(template, "\\n"@, "\n"@);
    let with_author = replace_all(broken, "{author}"@, work.author);
    let with_title = replace_all(with_author, "{title}"@, work.title);
    let with_text = replace_all(with_title, "{text}"@, work.text);
    replace_all(
        with_text,
        "{url}"@,
        match work.url {
            Some(u) => u,
            None => Seq::empty(),
        },
    )
}

/// The texts of `works`, in their order.
pub open spec fn texts_in(works: Seq<WorkView>) -> Seq<Seq<char>> {
    works.map_values(|w: WorkView| w.text)
}

/// Each of `works` through `template`, in their order.
pub open spec fn quotes_in(works: Seq<WorkView>, template: Seq<char>) -> Seq<Seq<char>> {
    works.map_values(|w: WorkView| rendered(template, w))
}

/// What is to be put out.
#[derive(Debug, Clone, PartialEq, Eq)]
pub enum Printout {
    /// Nothing at all.
    Nothing,
    /// These lines, one after the other.
    Lines(Vec<String>),
    /// These rows as comma-separated values.
    Csv(Vec<Work>),
    /// This one row as a JSON object.
    JsonObject(Work),
    /// These rows as a JSON array.
    JsonArray(Vec<Work>),
}

/// The text of what is to be put out.
pub enum PrintoutView {
    Nothing,
    Lines(Seq<Seq<char>>),
    Csv(Seq<WorkView>),
    JsonObject(WorkView),
    JsonArray(Seq<WorkView>),
}

impl View for Printout {
    type V = PrintoutView;

    open spec fn view(&self) -> PrintoutView {
        match self {
            Printout::Nothing => PrintoutView::Nothing,
            Printout::Lines(lines) => PrintoutView::Lines(texts_view(lines@)),
            Printout::Csv(rows) => PrintoutView::Csv(catalog_view(rows@)),
            Printout::JsonObject(row) => PrintoutView::JsonObject(row@),
            Printout::JsonArray(rows) => PrintoutView::JsonArray(catalog_view(rows@)),
        }
    }
}

/// What is put out for `works` in the form `format`: nothing for no works;
/// else their texts, or each through the template, or the rows themselves,
/// a single row as a JSON object of its own.
pub open spec fn printout_of(
    works: Seq<WorkView>,
    format: Format,
    template: Option<Seq<char>>,
) -> PrintoutView {
    if works.len() == 0 {
        PrintoutView::Nothing
    } else {
        match format {
            Format::Plain => PrintoutView::Lines(texts_in(works)),
            Format::Quote => PrintoutView::Lines(
                quotes_in(
                    works,
                    match template {
                        Some(t) => t,
                        None => default_template(),
                    },
                ),
            ),
            Format::Csv => PrintoutView::Csv(works),
            Format::Json => if works.len() == 1 {
                PrintoutView::JsonObject(works[0])
            } else {
                PrintoutView::JsonArray(works)
            },
        }
    }
}

/// A copy of a work.
pub fn copy_work(w: &Work) -> (out: Work)
    ensures
        out@ == w@,
{
    Work {
        author: w.author.clone(),
        title: w.title.clone(),
        text: w.text.clone(),
        url: copy_opt(&w.url),
    }
}

/// A copy of a run of works.
pub fn copy_works(works: &Vec<Work>) -> (out: Vec<Work>)
    ensures
        catalog_view(out@) == catalog_view(works@),
{
    let mut out: Vec<Work> = Vec::new();
    let mut i: usize = 0;
    while i < works.len()
        invariant
            i <= works.len(),
            catalog_view(out@) == catalog_view(works@).take(i as int),
        decreases works.len() - i,
    {
        let ghost before = catalog_view(out@);
        out.push(copy_work(&works[i]));
        assert(catalog_view(out@) =~= before.push(works@[i as int]@));
        assert(catalog_view(works@).take(i + 1) =~= before.push(works@[i as int]@));
        i += 1;
    }
    assert(catalog_view(works@).take(i as int) =~= catalog_view(works@));
    out
}

/// Calls `rand::seq::SliceRandom::shuffle` on the works, with the generator
/// of `rand::rng`. Trusted: that the works afterwards are the works before,
/// each as often as before, in some order.
#[verifier::external_body]
pub(crate) fn shuffle(works: &mut Vec<Work>)
    ensures
        catalog_view(final(works)@).to_multiset() == catalog_view(old(works)@).to_multiset(),
{
    works.shuffle(&mut rand::rng());
}

/// Whether `work` meets `query`.
pub fn meets(work: &Work, query: &Query) -> (r: bool)
    ensures
        r == contains(field_of(work@, query.key), query.value@),
{
    let value = chars_of(query.value.as_str());
    match query.key {
        QueryKey::Author => includes(&chars_of(work.author.as_str()), &value),
        QueryKey::Title => includes(&chars_of(work.title.as_str()), &value),
        QueryKey::Text => includes(&chars_of(work.text.as_str()), &value),
    }
}

/// Whether `work` meets every one of `queries`.
pub fn meets_every(work: &Work, queries: &Vec<Query>) -> (r: bool)
    ensures
        r == meets_all(work@, queries_view(queries@)),
{
    let ghost qs = queries_view(queries@);
    let mut i: usize = 0;
    while i < queries.len()
        invariant
            i <= queries.len(),
            qs == queries_view(queries@),
            forall|j: int|
                0 <= j < i ==> contains(field_of(work@, (#[trigger] qs[j]).key), qs[j].value),
        decreases queries.len() - i,
    {
        if !meets(work, &queries[i]) {
            assert(!contains(field_of(work@, qs[i as int].key), qs[i as int].value));
            return false;
        }
        i += 1;
    }
    true
}

/// `work` through `template`.
pub fn render(template: &str, work: &Work) -> (out: String)
    ensures
        out@ == rendered(template@, work@),
{
    proof {
        reveal_strlit("");
    }
    let broken = replace(template, "\\n", "\n");
    let with_author = replace(broken.as_str(), "{author}", work.author.as_str());
    let with_title = replace(with_author.as_str(), "{title}", work.title.as_str());
    let with_text = replace(with_title.as_str(), "{text}", work.text.as_str());
    let url: &str = match &work.url {
        Some(u) => u.as_str(),
        None => "",
    };
    assert(url@ =~= match work@.url {
        Some(u) => u,
        None => Seq::empty(),
    });
    replace(with_text.as_str(), "{url}", url)
}

/// What a table of works can be asked.
pub trait Works {
    /// The works of the table, in its order.
    spec fn listed(&self) -> Seq<WorkView>;

    /// The works in some other order where `random` is set, else in their
    /// own. Either way they are the same works, each as often as before.
    fn random(&self, random: bool) -> (out: Vec<Work>)
        ensures
            catalog_view(out@).to_multiset() == self.listed().to_multiset(),
            !random ==> catalog_view(out@) == self.listed(),
    ;

    /// The first `n` works; all of them where there are fewer.
    fn take(&self, n: usize) -> (out: Vec<Work>)
        ensures
            catalog_view(out@) == self.listed().take(
                if n <= self.listed().len() {
                    n as int
                } else {
                    self.listed().len() as int
                },
            ),
    ;

    /// The works that meet every one of `queries`.
    fn filter(&self, queries: &Vec<Query>) -> (out: Vec<Work>)
        ensures
            catalog_view(out@) == kept(self.listed(), queries_view(queries@)),
    ;

    /// What is to be put out for the works in the form `format`.
    fn print(&self, format: &Format, template: Option<&String>) -> (out: Printout)
        ensures
            out@ == printout_of(
                self.listed(),
                *format,
                match template {
                    Some(t) => Some(t@),
                    None => None,
                },
            ),
    ;

    /// The authors' names, in the order of texts, each once.
    fn authors(&self) -> (out: Vec<String>)
        ensures
            texts_view(out@) == without_repeats(names_in(self.listed()).sort_by(text_order())),
    ;

    /// The titles of the works whose author's name holds `author`, in the
    /// order of texts, each once.
    fn titles(&self, author: &str) -> (out: Vec<String>)
        ensures
            texts_view(out@) == without_repeats(
                titles_by(self.listed(), author@).sort_by(text_order()),
            ),
    ;
}

impl Works for Vec<Work> {
    open spec fn listed(&self) -> Seq<WorkView> {
        catalog_view(self@)
    }

    fn random(&self, random: bool) -> (out: Vec<Work>) {
        let mut works = copy_works(self);
        if random {
            shuffle(&mut works);
        }
        works
    }

    fn take(&self, n: usize) -> (out: Vec<Work>) {
        let end: usize = if n <= self.len() {
            n
        } else {
            self.len()
        };
        let mut out: Vec<Work> = Vec::new();
        let mut i: usize = 0;
        while i < end
            invariant
                i <= end <= self.len(),
                catalog_view(out@) == catalog_view(self@).take(i as int),
            decreases end - i,
        {
            let ghost before = catalog_view(out@);
            out.push(copy_work(&self[i]));
            assert(catalog_view(out@) =~= before.push(self@[i as int]@));
            assert(catalog_view(self@).take(i + 1) =~= before.push(self@[i as int]@));
            i += 1;
        }
        out
    }

    fn filter(&self, queries: &Vec<Query>) -> (out: Vec<Work>) {
        let ghost all = catalog_view(self@);
        let ghost qs = queries_view(queries@);
        let mut out: Vec<Work> = Vec::new();
        let mut i: usize = 0;
        assert(catalog_view(out@) =~= kept(all.take(0), qs));
        while i < self.len()
            invariant
                i <= self.len(),
                all == catalog_view(self@),
                qs == queries_view(queries@),
                catalog_view(out@) == kept(all.take(i as int), qs),
            decreases self.len() - i,
        {
            let ghost before = catalog_view(out@);
            proof {
                assert(all.take(i + 1).drop_last() =~= all.take(i as int));
                assert(all.take(i + 1).last() == self@[i as int]@);
            }
            if meets_every(&self[i], queries) {
                out.push(copy_work(&self[i]));
                assert(catalog_view(out@) =~= before.push(self@[i as int]@));
            }
            i += 1;
        }
        assert(all.take(i as int) =~= all);
        out
    }

    fn print(&self, format: &Format, template: Option<&String>) -> (out: Printout) {
        let ghost all = catalog_view(self@);
        if self.len() == 0 {
            return Printout::Nothing;
        }
        match format {
            Format::Plain => {
                let mut lines: Vec<String> = Vec::new();
                let mut i: usize = 0;
                while i < self.len()
                    invariant
                        i <= self.len(),
                        all == catalog_view(self@),
                        texts_view(lines@) == texts_in(all).take(i as int),
                    decreases self.len() - i,
                {
                    let ghost before = texts_view(lines@);
                    lines.push(self[i].text.clone());
                    assert(texts_view(lines@) =~= before.push(self@[i as int]@.text));
                    assert(texts_in(all).take(i + 1) =~= before.push(
                        self@[i as int]@.text,
                    ));
                    i += 1;
                }
                assert(texts_in(all).take(i as int) =~= texts_in(all));
                Printout::Lines(lines)
            },
            Format::Quote => {
                let pattern: &str = match template {
                    Some(t) => t.as_str(),
                    None => "{text}｜{author}『{title}』",
                };
                let ghost chosen = match template {
                    Some(t) => t@,
                    None => default_template(),
                };
                let ghost wanted = quotes_in(all, chosen);
                let mut lines: Vec<String> = Vec::new();
                let mut i: usize = 0;
                while i < self.len()
                    invariant
                        i <= self.len(),
                        all == catalog_view(self@),
                        pattern@ == chosen,
                        wanted == quotes_in(all, chosen),
                        texts_view(lines@) == wanted.take(i as int),
                    decreases self.len() - i,
                {
                    let ghost before = texts_view(lines@);
                    let line = render(pattern, &self[i]);
                    lines.push(line);
                    assert(texts_view(lines@) =~= before.push(line@));
                    assert(wanted.take(i + 1) =~= before.push(line@));
                    i += 1;
                }
                assert(wanted.take(i as int) =~= wanted);
                Printout::Lines(lines)
            },
            Format::Csv => Printout::Csv(copy_works(self)),
            Format::Json => {
                if self.len() == 1 {
                    Printout::JsonObject(copy_work(&self[0]))
                } else {
                    Printout::JsonArray(copy_works(self))
                }
            },
        }
    }

    fn authors(&self) -> (out: Vec<String>) {
        let ghost all = catalog_view(self@);
        let mut names: Vec<String> = Vec::new();
        let mut i: usize = 0;
        while i < self.len()
            invariant
                i <= self.len(),
                all == catalog_view(self@),
                texts_view(names@) == names_in(all).take(i as int),
            decreases self.len() - i,
        {
            let ghost before = texts_view(names@);
            names.push(self[i].author.clone());
            assert(texts_view(names@) =~= before.push(self@[i as int]@.author));
            assert(names_in(all).take(i + 1) =~= before.push(self@[i as int]@.author));
            i += 1;
        }
        assert(names_in(all).take(i as int) =~= names_in(all));
        let sorted = sort_texts(&names);
        dedup_texts(&sorted)
    }

    fn titles(&self, author: &str) -> (out: Vec<String>) {
        let ghost all = catalog_view(self@);
        let wanted = chars_of(author);
        let mut titles: Vec<String> = Vec::new();
        let mut i: usize = 0;
        assert(texts_view(titles@) =~= titles_by(all.take(0), author@));
        while i < self.len()
            invariant
                i <= self.len(),
                all == catalog_view(self@),
                wanted@ == author@,
                texts_view(titles@) == titles_by(all.take(i as int), author@),
            decreases self.len() - i,
        {
            let ghost before = texts_view(titles@);
            proof {
                assert(all.take(i + 1).drop_last() =~= all.take(i as int));
                assert(all.take(i + 1).last() == self@[i as int]@);
            }
            if includes(&chars_of(self[i].author.as_str()), &wanted) {
                titles.push(self[i].title.clone());
                assert(texts_view(titles@) =~= before.push(self@[i as int]@.title));
            }
            i += 1;
        }
        assert(all.take(i as int) =~= all);
        let sorted = sort_texts(&titles);
        dedup_texts(&sorted)
    }
}

/// The queries that stand for a pick of author and title; none where either
/// pick was given up.
pub fn picked_queries(author: Option<String>, title: Option<String>) -> (r: Option<Vec<Query>>)
    ensures
        match (author, title) {
            (Some(a), Some(t)) => r is Some && queries_view(r.unwrap()@) == seq![
                QueryView { key: QueryKey::Author, value: a@ },
                QueryView { key: QueryKey::Title, value: t@ },
            ],
            _ => r is None,
        },
{
    match (author, title) {
        (Some(a), Some(t)) => {
            let mut queries: Vec<Query> = Vec::new();
            queries.push(Query { key: QueryKey::Author, value: a });
            queries.push(Query { key: QueryKey::Title, value: t });
            assert(queries_view(queries@) =~= seq![
                QueryView { key: QueryKey::Author, value: a@ },
                QueryView { key: QueryKey::Title, value: t@ },
            ]);
            Some(queries)
        },
        _ => None,
    }
}

/// `out` is an answer to a request on the table `works`, the works having
/// come in the order `order`: `order` holds the works that meet `queries`,
/// each as often as the table does, and in the table's order where
/// `no_random` is set; put out are the first `limit` of them.
pub open spec fn answers(
    order: Seq<WorkView>,
    works: Seq<WorkView>,
    queries: Seq<QueryView>,
    no_random: bool,
    limit: usize,
    format: Format,
    template: Option<Seq<char>>,
    out: PrintoutView,
) -> bool {
    &&& order.to_multiset() == kept(works, queries).to_multiset()
    &&& no_random ==> order == kept(works, queries)
    &&& out == printout_of(
        order.take(
            if limit <= order.len() {
                limit as int
            } else {
                order.len() as int
            },
        ),
        format,
        template,
    )
}

/// The queries of a request: the picked ones where there are any.
pub open spec fn asked(picked: Option<Vec<Query>>, written: Vec<Query>) -> Seq<QueryView> {
    match picked {
        Some(q) => queries_view(q@),
        None => queries_view(written@),
    }
}

/// How many works a request asks for, of a table of `total` works.
pub open spec fn limit_of(args: Args, total: usize) -> usize {
    if args.all {
        total
    } else {
        args.number
    }
}

/// What is put out for the request `args` on the table `works`. The picked
/// queries, where there are any, stand in for those of the request. All
/// works that meet them are put out where the request says so, else as many
/// as it names.
pub fn respond(works: &Vec<Work>, args: &Args, picked: Option<Vec<Query>>) -> (out: Printout)
    ensures
        exists|order: Seq<WorkView>| #[trigger]
            answers(
                order,
                catalog_view(works@),
                asked(picked, args.query),
                args.no_random,
                limit_of(*args, works.len()),
                args.format,
                opt_view(args.template),
                out@,
            ),
{
    let queries: &Vec<Query> = match &picked {
        Some(q) => q,
        None => &args.query,
    };
    let found = works.filter(queries);
    let mixed = found.random(!args.no_random);
    let limit: usize = if args.all {
        works.len()
    } else {
        args.number
    };
    let shown = mixed.take(limit);
    let out = match &args.template {
        Some(t) => shown.print(&args.format, Some(t)),
        None => shown.print(&args.format, None),
    };
    assert(answers(
        catalog_view(mixed@),
        catalog_view(works@),
        asked(picked, args.query),
        args.no_random,
        limit_of(*args, works.len()),
        args.format,
        opt_view(args.template),
        out@,
    ));
    out
}

} // verus!
