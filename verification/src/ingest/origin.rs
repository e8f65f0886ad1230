//! Source identity and the original-bytes stage. The origin id is the
//! pre-download idempotency key: for URLs the normalized extractor and video
//! id, checked before any bytes move; for local files the SHA-256 of the
//! original file.
use crate::text::{
    begins, begins_with, chars_of, dec, lowercase, lowercased, push_arg, push_dec, string_of, texts,
    trim, trimmed_text,
};
use vstd::prelude::*;
use vstd::string::StringExecFns;

verus! {

/// What is ingested.
#[derive(Debug)]
pub enum Input {
    Url(String),
    File(String),
}

impl Input {
    /// The URL or the file's path.
    pub open spec fn spec_text(&self) -> Seq<char> {
        match self {
            Input::Url(url) => url@,
            Input::File(path) => path@,
        }
    }

    /// The URL or the file's path.
    pub fn text(&self) -> (s: String)
        ensures
            s@ == self.spec_text(),
    {
        match self {
            Input::Url(url) => url.as_str().to_owned(),
            Input::File(path) => path.as_str().to_owned(),
        }
    }
}

/// Whether a text is a URL.
pub open spec fn is_url(input: Seq<char>) -> bool {
    begins(input, "http://"@) || begins(input, "https://"@)
}

/// Tells URLs from files; `is_file` says whether the text names one.
pub fn classify(input: &str, is_file: bool) -> (r: Result<Input, String>)
    ensures
        if is_url(input@) {
            r is Ok && (r->Ok_0 matches Input::Url(url) && url@ == input@)
        } else if is_file {
            r is Ok && (r->Ok_0 matches Input::File(path) && path@ == input@)
        } else {
            r is Err && r->Err_0@ == input@ + " is neither a URL nor an existing file"@
        },
{
    let chars: Vec<char> = chars_of(input);
    if begins_with(&chars, "http://") || begins_with(&chars, "https://") {
        return Ok(Input::Url(input.to_owned()));
    }
    if !is_file {
        let mut s: String = input.to_owned();
        s.append(" is neither a URL nor an existing file");
        return Err(s);
    }
    Ok(Input::File(input.to_owned()))
}

/// The arguments that ask yt-dlp for a URL's identity.
pub fn probe_args(url: &str) -> (argv: Vec<String>)
    ensures
        texts(argv@) == seq![
            "--no-playlist"@,
            "--no-warnings"@,
            "--print"@,
            "%(extractor_key)s:%(id)s"@,
            url@,
        ],
{
    let mut argv: Vec<String> = Vec::new();
    push_arg(&mut argv, "--no-playlist");
    push_arg(&mut argv, "--no-warnings");
    push_arg(&mut argv, "--print");
    push_arg(&mut argv, "%(extractor_key)s:%(id)s");
    push_arg(&mut argv, url);
    assert(texts(argv@) =~= seq![
        "--no-playlist"@,
        "--no-warnings"@,
        "--print"@,
        "%(extractor_key)s:%(id)s"@,
        url@,
    ]);
    argv
}

/// The arguments that make yt-dlp download a URL to a name template.
pub fn download_args(template: &str, url: &str) -> (argv: Vec<String>)
    ensures
        texts(argv@) == seq![
            "--no-playlist"@,
            "-f"@,
            "bv*+ba/b"@,
            "--merge-output-format"@,
            "mkv"@,
            "-o"@,
            template@,
            url@,
        ],
{
    let mut argv: Vec<String> = Vec::new();
    push_arg(&mut argv, "--no-playlist");
    push_arg(&mut argv, "-f");
    push_arg(&mut argv, "bv*+ba/b");
    push_arg(&mut argv, "--merge-output-format");
    push_arg(&mut argv, "mkv");
    push_arg(&mut argv, "-o");
    push_arg(&mut argv, template);
    push_arg(&mut argv, url);
    assert(texts(argv@) =~= seq![
        "--no-playlist"@,
        "-f"@,
        "bv*+ba/b"@,
        "--merge-output-format"@,
        "mkv"@,
        "-o"@,
        template@,
        url@,
    ]);
    argv
}

/// The origin id of a file with the given digest.
pub fn file_origin_id(digest: &str) -> (s: String)
    ensures
        s@ == "sha256:"@ + digest@,
{
    let mut s: String = "sha256:".to_owned();
    s.append(digest);
    s
}

/// The origin id that a lower-cased identity gives: it names an extractor and
/// an id.
pub open spec fn url_origin_id_of(id: Seq<char>) -> Option<Seq<char>> {
    if id.len() == 0 || !id.contains(':') {
        None
    } else {
        Some("ytdlp:"@ + id)
    }
}

fn holds_colon(s: &Vec<char>) -> (b: bool)
    ensures
        b == s@.contains(':'),
{
    let mut i: usize = 0;
    while i < s.len()
        invariant
            i <= s@.len(),
            forall|k: int| 0 <= k < i ==> s@[k] != ':',
        decreases s@.len() - i,
    {
        if s[i] == ':' {
            return true;
        }
        i = i + 1;
    }
    false
}

/// The origin id of a URL whose lower-cased identity is `id`.
pub fn identified(id: &str, url: &str) -> (r: Result<String, String>)
    ensures
        match url_origin_id_of(id@) {
            Some(s) => r is Ok && r->Ok_0@ == s,
            None => r is Err && r->Err_0@ == "yt-dlp probe returned no extractor:id for "@ + url@,
        },
{
    let chars: Vec<char> = chars_of(id);
    if chars.len() == 0 || !holds_colon(&chars) {
        let mut s: String = "yt-dlp probe returned no extractor:id for ".to_owned();
        s.append(url);
        return Err(s);
    }
    let mut s: String = "ytdlp:".to_owned();
    s.append(id);
    Ok(s)
}

/// The origin id of a URL, out of what yt-dlp printed: trimmed and lower-cased.
pub fn url_origin_id(printed: &str, url: &str) -> (r: Result<String, String>)
    ensures
        match url_origin_id_of(lowercased(trimmed_text(printed@))) {
            Some(s) => r is Ok && r->Ok_0@ == s,
            None => r is Err && r->Err_0@ == "yt-dlp probe returned no extractor:id for "@ + url@,
        },
{
    let trimmed: Vec<char> = trim(&chars_of(printed));
    let text: String = string_of(trimmed.as_slice(), 0, trimmed.len());
    assert(text@ =~= trimmed@);
    identified(lowercase(text.as_str()).as_str(), url)
}

/// A character that stands as it is in a directory name.
pub open spec fn name_safe(c: char) -> bool {
    'a' <= c <= 'z' || 'A' <= c <= 'Z' || '0' <= c <= '9' || c == '.' || c == '-' || c == '_'
}

/// A work directory's name: every character that is not safe is a hyphen.
pub open spec fn sanitized(origin_id: Seq<char>) -> Seq<char> {
    origin_id.map_values(
        |c: char|
            if name_safe(c) {
                c
            } else {
                '-'
            },
    )
}

/// Filesystem-safe directory name for a work directory's key.
pub fn sanitize(origin_id: &str) -> (s: String)
    ensures
        s@ == sanitized(origin_id@),
{
    let mut s: String = String::new();
    for c in it: origin_id.chars()
        invariant
            it.seq() == origin_id@,
            s@ =~= sanitized(origin_id@).take(it.index()),
    {
        if ('a' <= c && c <= 'z') || ('A' <= c && c <= 'Z') || ('0' <= c && c <= '9') || c == '.'
            || c == '-' || c == '_' {
            s.push(c);
        } else {
            s.push('-');
        }
    }
    assert(s@ =~= sanitized(origin_id@));
    s
}

/// A sanitized name is its own sanitized name, as long as the key, and holds no
/// path separator.
pub proof fn law_sanitized_names_are_safe(origin_id: Seq<char>)
    ensures
        sanitized(sanitized(origin_id)) == sanitized(origin_id),
        sanitized(origin_id).len() == origin_id.len(),
        !sanitized(origin_id).contains('/'),
        forall|i: int|
            0 <= i < origin_id.len() ==> name_safe(#[trigger] sanitized(origin_id)[i]),
{
    assert(sanitized(sanitized(origin_id)) =~= sanitized(origin_id));
}

/// The positions of the names that begin like a download.
pub open spec fn downloads(names: Seq<Seq<char>>) -> Seq<int>
    decreases names.len(),
{
    if names.len() == 0 {
        Seq::empty()
    } else if begins(names.last(), "download."@) {
        downloads(names.drop_last()).push(names.len() - 1)
    } else {
        downloads(names.drop_last())
    }
}

/// The one downloaded file among the names in a directory.
pub fn pick_download(names: &Vec<String>) -> (r: Result<usize, String>)
    ensures
        ({
            let found = downloads(texts(names@));
            if found.len() == 1 {
                r == Ok::<usize, String>(found[0] as usize)
            } else {
                r is Err && r->Err_0@ == "expected one downloaded file, found "@ + dec(found.len())
            }
        }),
{
    let ghost all = texts(names@);
    let mut count: u128 = 0;
    let mut at: usize = 0;
    let mut i: usize = 0;
    assert(all.take(0) =~= Seq::empty());
    while i < names.len()
        invariant
            i <= names@.len(),
            all == texts(names@),
            count == downloads(all.take(i as int)).len(),
            count <= i,
            count > 0 ==> at == downloads(all.take(i as int)).last(),
            count > 0 ==> at < i,
        decreases names@.len() - i,
    {
        assert(all.take(i + 1).drop_last() =~= all.take(i as int));
        assert(all.take(i + 1).last() == names@[i as int]@);
        if begins_with(&chars_of(names[i].as_str()), "download.") {
            count = count + 1;
            at = i;
        }
        i = i + 1;
    }
    assert(all.take(i as int) =~= all);
    if count == 1 {
        return Ok(at);
    }
    let mut s: String = "expected one downloaded file, found ".to_owned();
    push_dec(&mut s, count);
    Err(s)
}

// ---------------------------------------------------------------------- laws

/// Safe characters are kept and every other becomes a hyphen, one for one.
pub proof fn law_names_change_only_where_unsafe(origin_id: Seq<char>, i: int)
    requires
        0 <= i < origin_id.len(),
    ensures
        ({
            let c = origin_id[i];
            let safe = 'a' <= c <= 'z' || 'A' <= c <= 'Z' || '0' <= c <= '9' || c == '.' || c == '-'
                || c == '_';
            sanitized(origin_id)[i] == if safe {
                c
            } else {
                '-'
            }
        }),
{
}

/// An identity gives an origin id iff it holds a colon; the id keeps it whole.
pub proof fn law_identities_are_kept_whole(id: Seq<char>)
    ensures
        url_origin_id_of(id) is Some <==> id.contains(':'),
        url_origin_id_of(id) matches Some(s) ==> s == "ytdlp:"@ + id,
{
}

/// The downloads among names are exactly those that begin with `download.`, in
/// order.
pub proof fn law_downloads_are_the_names_that_begin_so(names: Seq<Seq<char>>)
    ensures
        forall|i: int|
            #![trigger names[i]]
            0 <= i < names.len() ==> (downloads(names).contains(i) <==> begins(
                names[i],
                "download."@,
            )),
        forall|k: int|
            #![trigger downloads(names)[k]]
            0 <= k < downloads(names).len() ==> 0 <= downloads(names)[k] < names.len(),
        downloads(names).len() <= names.len(),
        downloads(names).no_duplicates(),
    decreases names.len(),
{
    if names.len() > 0 {
        let before = names.drop_last();
        law_downloads_are_the_names_that_begin_so(before);
        let (a, b) = (downloads(before), downloads(names));
        let n = names.len() - 1;
        assert forall|i: int| #![trigger names[i]] 0 <= i < names.len() implies (b.contains(i)
            <==> begins(names[i], "download."@)) by {
            if i < n {
                assert(before[i] == names[i]);
                if a.contains(i) {
                    let k = choose|k: int| 0 <= k < a.len() && a[k] == i;
                    assert(b[k] == i);
                }
                if b.contains(i) {
                    let k = choose|k: int| 0 <= k < b.len() && b[k] == i;
                    assert(a[k] == i);
                }
            } else {
                if begins(names[n], "download."@) {
                    assert(b[a.len() as int] == n);
                } else if b.contains(n) {
                    let k = choose|k: int| 0 <= k < b.len() && b[k] == n;
                    assert(a[k] == n);
                }
            }
        }
    }
}

/// An input is fetched iff it begins like a web address; anything else is a file.
pub proof fn law_web_addresses_are_fetched(rest: Seq<char>, input: Seq<char>)
    ensures
        is_url("http://"@ + rest),
        is_url("https://"@ + rest),
        is_url(input) ==> input.len() >= 7 && input[0] == 'h' && input[1] == 't' && input[2] == 't'
            && input[3] == 'p' && (input[4] == ':' || (input[4] == 's' && input[5] == ':')),
{
    reveal_strlit("http://");
    reveal_strlit("https://");
    assert(("http://"@ + rest).take(7) =~= "http://"@);
    assert(("https://"@ + rest).take(8) =~= "https://"@);
    if begins(input, "http://"@) {
        let p = input.take(7);
        assert(p[0] == input[0] && p[1] == input[1] && p[2] == input[2] && p[3] == input[3] && p[4]
            == input[4]);
    } else if begins(input, "https://"@) {
        let p = input.take(8);
        assert(p[0] == input[0] && p[1] == input[1] && p[2] == input[2] && p[3] == input[3] && p[4]
            == input[4] && p[5] == input[5]);
    }
}

} // verus!
