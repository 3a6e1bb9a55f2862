//! Where the password comes from.

use vstd::prelude::*;
use vstd::string::*;

use crate::error::{ErrorView, StrawsError};
use crate::text;

verus! {

/// Where the password comes from.
#[derive(Debug)]
pub enum PasswordSource {
    /// From a file.
    File(String),
    /// From the environment, where it is this one.
    Environment(String),
    /// From the user, who is asked for it.
    Prompt,
    /// There is none.
    Nowhere,
}

/// Where the password comes from, with its texts as sequences of characters.
pub enum SourceView {
    File(Seq<char>),
    Environment(Seq<char>),
    Prompt,
    Nowhere,
}

impl View for PasswordSource {
    type V = SourceView;

    open spec fn view(&self) -> SourceView {
        match *self {
            PasswordSource::File(p) => SourceView::File(p@),
            PasswordSource::Environment(p) => SourceView::Environment(p@),
            PasswordSource::Prompt => SourceView::Prompt,
            PasswordSource::Nowhere => SourceView::Nowhere,
        }
    }
}

/// Where the password comes from: a file comes first, then the environment, where it holds
/// something, then the user.
pub open spec fn source_of(
    prompt: bool,
    file: Option<Seq<char>>,
    env: Option<Seq<char>>,
) -> SourceView {
    match file {
        Some(path) => SourceView::File(path),
        None => match env {
            Some(p) => if p.len() > 0 {
                SourceView::Environment(p)
            } else if prompt {
                SourceView::Prompt
            } else {
                SourceView::Nowhere
            },
            None => if prompt {
                SourceView::Prompt
            } else {
                SourceView::Nowhere
            },
        },
    }
}

/// Where the password comes from. `env` is what the environment variable holds.
pub fn get_password(prompt: bool, file: &Option<String>, env: &Option<String>) -> (r:
    PasswordSource)
    ensures
        r@ == source_of(prompt, file.deep_view(), env.deep_view()),
{
    match file {
        Some(path) => {
            return PasswordSource::File(path.clone());
        },
        None => {},
    }
    match env {
        Some(p) => {
            if p.as_str().unicode_len() > 0 {
                return PasswordSource::Environment(p.clone());
            }
        },
        None => {},
    }
    if prompt {
        PasswordSource::Prompt
    } else {
        PasswordSource::Nowhere
    }
}

/// The first line of a text.
pub open spec fn first_line(s: Seq<char>) -> Seq<char> {
    match s.index_of_first('\n') {
        Some(i) => s.take(i),
        None => s,
    }
}

/// The password in a file, or why there is none: its first line without the blanks around it.
pub open spec fn file_password(
    path: Seq<char>,
    content: Result<String, String>,
) -> Result<Seq<char>, ErrorView> {
    match content {
        Err(m) => Err(ErrorView::Config("Failed to read password file "@ + path + ": "@ + m@)),
        Ok(s) => if text::trimmed(first_line(s@)).len() == 0 {
            Err(ErrorView::Config("Password file "@ + path + " is empty"@))
        } else {
            Ok(text::trimmed(first_line(s@)))
        },
    }
}

/// The password in a file.
pub fn read_password_file(path: &str, content: Result<String, String>) -> (r: Result<
    String,
    StrawsError,
>)
    ensures
        match r {
            Ok(p) => file_password(path@, content) == Ok::<Seq<char>, ErrorView>(p@),
            Err(e) => file_password(path@, content) == Err::<Seq<char>, ErrorView>(e@),
        },
{
    let s: String = match content {
        Ok(s) => s,
        Err(m) => {
            return Err(
                StrawsError::Config(
                    text::cat4("Failed to read password file ", path, ": ", m.as_str()),
                ),
            );
        },
    };
    let v = text::chars_of(s.as_str());
    let n: usize = v.len();
    proof {
        v@.index_of_first_ensures('\n');
    }
    let end: usize = match text::find_char(&v, '\n') {
        Some(i) => i,
        None => n,
    };
    let line = text::text_between(&v, 0, end);
    proof {
        assert(line@ =~= first_line(s@));
    }
    let password = text::trim(line.as_str());
    if password.as_str().unicode_len() == 0 {
        Err(StrawsError::Config(text::cat3("Password file ", path, " is empty")))
    } else {
        Ok(password)
    }
}

/// The password that the user typed: a line without its end.
pub fn prompt_password(line: &str) -> (r: Result<String, StrawsError>)
    ensures
        match r {
            Ok(p) => p@ == text::stripped_end(line@, set!['\r', '\n']) && p@.len() > 0,
            Err(e) => text::stripped_end(line@, set!['\r', '\n']).len() == 0 && e@
                == ErrorView::Config("Empty password"@),
        },
{
    let password = text::strip_end(line, '\r', '\n');
    if password.as_str().unicode_len() == 0 {
        Err(StrawsError::Config("Empty password".to_owned()))
    } else {
        Ok(password)
    }
}

/// Where the password comes from. A file that was named comes before all else; then an environment
/// variable that holds something; then the user, who is asked only if they want to be; and without
/// any of these there is none.
pub proof fn lemma_password_sources_in_order(
    prompt: bool,
    file: &Option<String>,
    env: &Option<String>,
    r: PasswordSource,
)
    requires
        call_ensures(get_password, (prompt, file, env), r),
    ensures
        r is File <==> file is Some,
        r matches PasswordSource::File(p) ==> p@ == file.unwrap()@,
        r is Environment <==> file is None && env is Some && env.unwrap()@.len() > 0,
        r matches PasswordSource::Environment(p) ==> p@ == env.unwrap()@,
        r is Prompt <==> file is None && (env is None || env.unwrap()@.len() == 0) && prompt,
        r is Nowhere <==> file is None && (env is None || env.unwrap()@.len() == 0) && !prompt,
{
    assert(r@ is File <==> r is File);
    assert(r@ is Environment <==> r is Environment);
}

/// The password in a file is its first line, without the blanks around it; a file that cannot be
/// read, or whose first line holds nothing, has none.
pub proof fn lemma_first_line_is_the_password(
    path: &str,
    content: Result<String, String>,
    r: Result<String, StrawsError>,
    line: Seq<char>,
    rest: Seq<char>,
)
    requires
        !line.contains('\n'),
        call_ensures(read_password_file, (path, content), r),
    ensures
        content is Err ==> r is Err,
        r is Err ==> r->Err_0@ is Config,
        content matches Ok(s) ==> (s@ == line || s@ == line + seq!['\n'] + rest) ==> (r is Ok
            <==> text::trimmed(line).len() > 0) && (r matches Ok(p) ==> p@ == text::trimmed(line)),
{
    if content matches Ok(s) {
        let t = content->Ok_0@;
        t.index_of_first_ensures('\n');
        if t == line {
        } else if t == line + seq!['\n'] + rest {
            assert(t[line.len() as int] == '\n');
            assert(t.contains('\n'));
            let i = t.index_of_first('\n').unwrap();
            if i < line.len() {
                assert(line[i] == '\n');
            }
            assert(t.take(i) =~= line);
        }
    }
}

/// What the user types is the password, without the end of the line and with all else; an empty line
/// is refused.
pub proof fn lemma_typed_password_is_kept(
    line: &str,
    r: Result<String, StrawsError>,
    typed: Seq<char>,
)
    requires
        typed.len() > 0 ==> typed.last() != '\r' && typed.last() != '\n',
        line@ == typed || line@ == typed + seq!['\n'] || line@ == typed + seq!['\r', '\n'],
        call_ensures(prompt_password, (line,), r),
    ensures
        typed.len() > 0 ==> (r matches Ok(p) && p@ == typed),
        typed.len() == 0 ==> r is Err && r->Err_0@ is Config,
{
    let ends = set!['\r', '\n'];
    assert(text::stripped_end(typed, ends) == typed);
    let a = typed + seq!['\r'];
    assert(a.drop_last() =~= typed);
    assert(text::stripped_end(a, ends) == typed);
    let b = typed + seq!['\n'];
    assert(b.drop_last() =~= typed);
    assert(text::stripped_end(b, ends) == typed);
    let c = typed + seq!['\r', '\n'];
    assert(c.drop_last() =~= a);
    assert(c.last() == '\n');
    assert(text::stripped_end(c, ends) == text::stripped_end(a, ends));
}

} // verus!
