//! The agent itself: a Python program that runs on the remote host, and the command that starts it.

use vstd::prelude::*;

use crate::text;

verus! {

/// The program that runs on the remote host: it reads requests from its standard input and answers
/// them on its standard output.
pub const PYTHON_AGENT: &'static str = r#"
import sys, os, struct, hashlib

CHUNK = 65536  # 64KB streaming chunks

def read_exact(n):
    """Read exactly n bytes from stdin"""
    data = b''
    while len(data) < n:
        chunk = sys.stdin.buffer.read(n - len(data))
        if not chunk:
            return None
        data += chunk
    return data

def write_response(status, data):
    """Write response: status(1) + data_len(8) + data"""
    sys.stdout.buffer.write(struct.pack('>B', status))
    sys.stdout.buffer.write(struct.pack('>Q', len(data)))

    # Stream data in chunks
    offset = 0
    while offset < len(data):
        end = min(offset + CHUNK, len(data))
        sys.stdout.buffer.write(data[offset:end])
        offset = end
    sys.stdout.buffer.flush()

def write_error(msg):
    """Write error response"""
    write_response(1, msg.encode('utf-8')[:1000])

def handle_read(path, offset, length):
    """Read bytes from file"""
    try:
        with open(path, 'rb') as f:
            f.seek(offset)
            # Get actual readable length
            f.seek(0, 2)
            file_size = f.tell()
            actual_len = min(length, max(0, file_size - offset))
            f.seek(offset)

            # Send success header first
            sys.stdout.buffer.write(struct.pack('>B', 0))  # status = success
            sys.stdout.buffer.write(struct.pack('>Q', actual_len))

            # Stream data in chunks
            remaining = actual_len
            while remaining > 0:
                chunk_size = min(CHUNK, remaining)
                data = f.read(chunk_size)
                if not data:
                    break
                sys.stdout.buffer.write(data)
                remaining -= len(data)
            sys.stdout.buffer.flush()
    except FileNotFoundError:
        write_error(f'File not found: {path}')
    except PermissionError:
        write_error(f'Permission denied: {path}')
    except Exception as e:
        write_error(str(e))

def handle_write(path, offset, length, data):
    """Write bytes to file at offset"""
    try:
        # Ensure parent directory exists
        parent = os.path.dirname(path)
        if parent and not os.path.exists(parent):
            os.makedirs(parent, exist_ok=True)

        mode = 'r+b' if os.path.exists(path) else 'wb'
        with open(path, mode) as f:
            f.seek(offset)
            f.write(data)
        write_response(0, b'')
    except Exception as e:
        write_error(str(e))

def handle_md5(path, offset, length):
    """Compute MD5 of byte range"""
    try:
        md5 = hashlib.md5()
        with open(path, 'rb') as f:
            f.seek(offset)
            remaining = length
            while remaining > 0:
                chunk_size = min(CHUNK, remaining)
                data = f.read(chunk_size)
                if not data:
                    break
                md5.update(data)
                remaining -= len(data)
        write_response(0, md5.hexdigest().encode('utf-8'))
    except FileNotFoundError:
        write_error(f'File not found: {path}')
    except PermissionError:
        write_error(f'Permission denied: {path}')
    except Exception as e:
        write_error(str(e))

def handle_mkdir(path):
    """Create directory recursively"""
    try:
        os.makedirs(path, exist_ok=True)
        write_response(0, b'')
    except Exception as e:
        write_error(str(e))

def handle_stat(path):
    """Get file size, mode, mtime"""
    try:
        st = os.stat(path)
        # size(8) + mode(4) + mtime(8)
        data = struct.pack('>QIQ', st.st_size, st.st_mode, int(st.st_mtime))
        write_response(0, data)
    except FileNotFoundError:
        write_error(f'File not found: {path}')
    except PermissionError:
        write_error(f'Permission denied: {path}')
    except Exception as e:
        write_error(str(e))

def handle_truncate(path, size):
    """Truncate/preallocate file to size"""
    try:
        # Ensure parent directory exists
        parent = os.path.dirname(path)
        if parent and not os.path.exists(parent):
            os.makedirs(parent, exist_ok=True)

        with open(path, 'ab') as f:
            f.truncate(size)
        write_response(0, b'')
    except Exception as e:
        write_error(str(e))

def handle_find(base_path):
    """Recursively find all files and stream their stats.
    Response format: status(1) then streamed entries, each:
      path_len(2) + path(utf8) + size(8) + mode(4) + mtime(8)
    Paths are returned relative to base_path (preserving the user's path format).
    Terminated by path_len=0.
    """
    try:
        # Expand ~ but keep the path format for consistent prefix stripping on client
        base = os.path.expanduser(base_path)
        sys.stdout.buffer.write(struct.pack('>B', 0))  # success status

        def send_entry(rel_path, st):
            """Send entry with path relative to user-provided base_path"""
            # Combine user's own base_path with relative portion
            full_path = os.path.join(base_path, rel_path) if rel_path else base_path
            path_bytes = full_path.encode('utf-8')
            sys.stdout.buffer.write(struct.pack('>H', len(path_bytes)))
            sys.stdout.buffer.write(path_bytes)
            sys.stdout.buffer.write(struct.pack('>QIQ', st.st_size, st.st_mode, int(st.st_mtime)))

        if os.path.isfile(base):
            # Single file - return with the user's base_path
            send_entry('', os.stat(base))
        else:
            for root, dirs, filenames in os.walk(base):
                for fname in filenames:
                    fpath = os.path.join(root, fname)
                    try:
                        st = os.stat(fpath)
                        if os.path.isfile(fpath):
                            # Get path relative to expanded base, then join with the user's base_path
                            rel = os.path.relpath(fpath, base)
                            send_entry(rel, st)
                    except (OSError, IOError):
                        continue

        # End marker: path_len=0
        sys.stdout.buffer.write(struct.pack('>H', 0))
        sys.stdout.buffer.flush()
    except Exception as e:
        write_error(str(e))

def main():
    while True:
        # Read request header: op(1) + path_len(2)
        header = read_exact(3)
        if header is None:
            break

        op = header[0]
        path_len = struct.unpack('>H', header[1:3])[0]

        # Read path
        path_bytes = read_exact(path_len)
        if path_bytes is None:
            break

        try:
            path = path_bytes.decode('utf-8')
        except UnicodeDecodeError:
            write_error('Invalid UTF-8 in path')
            continue

        # Expand ~ to home directory (but preserve relative paths)
        user_path = path
        path = os.path.expanduser(user_path)

        # Read offset(8) + length(8)
        nums = read_exact(16)
        if nums is None:
            break

        offset, length = struct.unpack('>QQ', nums)

        # Handle operation
        if op == 0:  # READ
            handle_read(path, offset, length)
        elif op == 1:  # WRITE
            # Read data for write
            data = read_exact(length) if length > 0 else b''
            if data is None and length > 0:
                break
            handle_write(path, offset, length, data)
        elif op == 2:  # MD5
            handle_md5(path, offset, length)
        elif op == 3:  # MKDIR
            handle_mkdir(path)
        elif op == 4:  # STAT
            handle_stat(path)
        elif op == 5:  # TRUNCATE
            handle_truncate(path, length)
        elif op == 6:  # FIND
            handle_find(user_path)
        else:
            write_error(f'Unknown operation: {op}')

if __name__ == '__main__':
    try:
        main()
    except Exception as e:
        sys.stderr.write(f'Agent error: {e}\n')
        sys.exit(1)
"#;

/// Text between two single quotes of a shell command: a single quote in it is written as a
/// closing quote, a quoted quote, and an opening quote.
pub open spec fn quoted(s: Seq<char>) -> Seq<char> {
    text::replaced(s, '\'', "'\"'\"'"@)
}

/// How a character is written in a Python string between double quotes.
pub open spec fn escaped(c: char) -> Seq<char> {
    if c == '\\' {
        seq!['\\', '\\']
    } else if c == '"' {
        seq!['\\', '"']
    } else if c == '\n' {
        seq!['\\', 'n']
    } else if c == '\r' {
        seq!['\\', 'r']
    } else {
        seq![c]
    }
}

/// How text is written in a Python string, without the quotes around it.
pub open spec fn literal_body(s: Seq<char>) -> Seq<char>
    decreases s.len(),
{
    if s.len() == 0 {
        s
    } else {
        literal_body(s.drop_last()) + escaped(s.last())
    }
}

/// Text as a Python string, on one line.
pub open spec fn literal(s: Seq<char>) -> Seq<char> {
    seq!['"'] + literal_body(s) + seq!['"']
}

/// The Python statement, on one line, that runs a program.
pub open spec fn statement(program: Seq<char>) -> Seq<char> {
    "exec("@ + literal(program) + ")"@
}

/// The command that runs a program: Python is handed, on its command line, a statement that runs
/// it.
pub open spec fn command_for(program: Seq<char>) -> Seq<char> {
    "exec python3 -c '"@ + quoted(statement(program)) + "'"@
}

/// The text is on one line.
pub open spec fn one_line(s: Seq<char>) -> bool {
    forall|i: int| 0 <= i < s.len() ==> s[i] != '\n'
}

fn python_literal(s: &str) -> (r: String)
    ensures
        r@ == literal(s@),
{
    let v = text::chars_of(s);
    let mut r: String = String::new();
    r.push('"');
    proof {
        assert(r@ =~= seq!['"'] + literal_body(v@.take(0)));
    }
    let mut i: usize = 0;
    while i < v.len()
        invariant
            i <= v@.len(),
            r@ == seq!['"'] + literal_body(v@.take(i as int)),
        decreases v@.len() - i,
    {
        proof {
            assert(v@.take(i + 1).drop_last() =~= v@.take(i as int));
        }
        let ghost before = r@;
        let c: char = v[i];
        if c == '\\' {
            r.push('\\');
            r.push('\\');
        } else if c == '"' {
            r.push('\\');
            r.push('"');
        } else if c == '\n' {
            r.push('\\');
            r.push('n');
        } else if c == '\r' {
            r.push('\\');
            r.push('r');
        } else {
            r.push(c);
        }
        proof {
            assert(r@ =~= before + escaped(c));
            assert(r@ =~= seq!['"'] + literal_body(v@.take(i + 1)));
        }
        i = i + 1;
    }
    proof {
        assert(v@.take(v@.len() as int) =~= s@);
        assert(r@.push('"') =~= literal(s@));
    }
    r.push('"');
    r
}

/// The command that starts the agent, on a single line.
pub fn agent_command() -> (r: String)
    ensures
        r@ == command_for(PYTHON_AGENT@),
        forall|i: int| 0 <= i < r@.len() ==> r@[i] != '\n',
{
    let program = text::cat3("exec(", python_literal(PYTHON_AGENT).as_str(), ")");
    let word = text::replace_char(program.as_str(), '\'', "'\"'\"'");
    proof {
        lemma_command_is_one_line(PYTHON_AGENT@);
    }
    text::cat3("exec python3 -c '", word.as_str(), "'")
}

// ---------------------------------------------------------------------------
// A single line
// ---------------------------------------------------------------------------

proof fn lemma_literal_is_one_line(s: Seq<char>)
    ensures
        one_line(literal_body(s)),
    decreases s.len(),
{
    if s.len() > 0 {
        lemma_literal_is_one_line(s.drop_last());
    }
}

proof fn lemma_quoted_is_one_line(s: Seq<char>)
    requires
        one_line(s),
    ensures
        one_line(quoted(s)),
    decreases s.len(),
{
    reveal_strlit("'\"'\"'");
    if s.len() > 0 {
        let t = s.drop_last();
        assert forall|i: int| 0 <= i < t.len() implies t[i] != '\n' by {
            assert(t[i] == s[i]);
        }
        lemma_quoted_is_one_line(t);
        assert(s.last() == s[s.len() - 1]);
    }
}

/// The command that runs a program is a single line, however many lines the program has.
pub proof fn lemma_command_is_one_line(program: Seq<char>)
    ensures
        one_line(command_for(program)),
{
    reveal_strlit("exec(");
    reveal_strlit(")");
    reveal_strlit("exec python3 -c '");
    reveal_strlit("'");
    lemma_literal_is_one_line(program);
    lemma_quoted_is_one_line(statement(program));
}

// ---------------------------------------------------------------------------
// What is run
// ---------------------------------------------------------------------------

/// Where a shell is in a word.
pub enum Quote {
    Outside,
    Single,
    Double,
}

/// What a shell makes of a word that has blanks, backslashes, dollar signs and backquotes in single
/// quotes only: where it is at the end, and the text that it has read.
pub open spec fn shell_word(s: Seq<char>) -> (Quote, Seq<char>)
    decreases s.len(),
{
    if s.len() == 0 {
        (Quote::Outside, s)
    } else {
        let (quote, read) = shell_word(s.drop_last());
        let c = s.last();
        match quote {
            Quote::Outside => if c == '\'' {
                (Quote::Single, read)
            } else if c == '"' {
                (Quote::Double, read)
            } else {
                (Quote::Outside, read.push(c))
            },
            Quote::Single => if c == '\'' {
                (Quote::Outside, read)
            } else {
                (Quote::Single, read.push(c))
            },
            Quote::Double => if c == '"' {
                (Quote::Outside, read)
            } else {
                (Quote::Double, read.push(c))
            },
        }
    }
}

proof fn lemma_pushed(s: Seq<char>, c: char)
    ensures
        s.push(c).drop_last() == s,
        s.push(c).last() == c,
{
    assert(s.push(c).drop_last() =~= s);
}

proof fn lemma_open_quote(s: Seq<char>)
    ensures
        shell_word(seq!['\''] + quoted(s)) == (Quote::Single, s),
    decreases s.len(),
{
    reveal_strlit("'\"'\"'");
    let q = seq!['\''];
    if s.len() == 0 {
        assert(q + quoted(s) =~= Seq::<char>::empty().push('\''));
        lemma_pushed(Seq::empty(), '\'');
        reveal_with_fuel(shell_word, 2);
        assert(s =~= Seq::<char>::empty());
    } else {
        let t = s.drop_last();
        lemma_open_quote(t);
        let a = q + quoted(t);
        if s.last() == '\'' {
            let b = a.push('\'');
            let c = b.push('"');
            let d = c.push('\'');
            let e = d.push('"');
            let f = e.push('\'');
            assert(q + quoted(s) =~= f);
            lemma_pushed(a, '\'');
            lemma_pushed(b, '"');
            lemma_pushed(c, '\'');
            lemma_pushed(d, '"');
            lemma_pushed(e, '\'');
            assert(shell_word(b) == (Quote::Outside, t));
            assert(shell_word(c) == (Quote::Double, t));
            assert(shell_word(d) == (Quote::Double, t.push('\'')));
            assert(shell_word(e) == (Quote::Outside, t.push('\'')));
        } else {
            assert(q + quoted(s) =~= a.push(s.last()));
            lemma_pushed(a, s.last());
        }
        assert(t.push(s.last()) =~= s);
    }
}

/// A shell reads quoted text as the text that was quoted, whatever it holds.
pub proof fn lemma_shell_undoes_quoting(s: Seq<char>)
    ensures
        shell_word(seq!['\''] + quoted(s) + seq!['\'']) == (Quote::Outside, s),
{
    let q = seq!['\''];
    lemma_open_quote(s);
    let a = q + quoted(s);
    assert(a + q =~= a.push('\''));
    lemma_pushed(a, '\'');
}

/// Where Python is in a string.
pub enum Literal {
    Before,
    Inside,
    /// Behind a backslash.
    Escape,
    Closed,
    /// This is no string, or one that is not written as strings are written here.
    Broken,
}

/// What Python makes of a string between double quotes: where it is at the end, and the text that
/// it has read.
pub open spec fn read_literal(s: Seq<char>) -> (Literal, Seq<char>)
    decreases s.len(),
{
    if s.len() == 0 {
        (Literal::Before, s)
    } else {
        let (at, read) = read_literal(s.drop_last());
        let c = s.last();
        match at {
            Literal::Before => if c == '"' {
                (Literal::Inside, read)
            } else {
                (Literal::Broken, read)
            },
            Literal::Inside => if c == '"' {
                (Literal::Closed, read)
            } else if c == '\\' {
                (Literal::Escape, read)
            } else if c == '\n' || c == '\r' || c == '\0' {
                (Literal::Broken, read)
            } else {
                (Literal::Inside, read.push(c))
            },
            Literal::Escape => if c == '\\' || c == '"' {
                (Literal::Inside, read.push(c))
            } else if c == 'n' {
                (Literal::Inside, read.push('\n'))
            } else if c == 'r' {
                (Literal::Inside, read.push('\r'))
            } else {
                (Literal::Broken, read)
            },
            Literal::Closed | Literal::Broken => (Literal::Broken, read),
        }
    }
}

proof fn lemma_open_literal(s: Seq<char>)
    requires
        !s.contains('\0'),
    ensures
        read_literal(seq!['"'] + literal_body(s)) == (Literal::Inside, s),
    decreases s.len(),
{
    let q = seq!['"'];
    if s.len() == 0 {
        assert(q + literal_body(s) =~= Seq::<char>::empty().push('"'));
        lemma_pushed(Seq::empty(), '"');
        reveal_with_fuel(read_literal, 2);
        assert(s =~= Seq::<char>::empty());
    } else {
        let t = s.drop_last();
        let c = s.last();
        assert(s[s.len() - 1] == c);
        assert(!t.contains('\0')) by {
            assert forall|i: int| 0 <= i < t.len() implies t[i] != '\0' by {
                assert(t[i] == s[i]);
                assert(s.contains(s[i]));
            }
        }
        lemma_open_literal(t);
        let a = q + literal_body(t);
        if escaped(c).len() == 2 {
            let b = a.push('\\');
            let d = b.push(escaped(c)[1]);
            assert(q + literal_body(s) =~= d);
            lemma_pushed(a, '\\');
            lemma_pushed(b, escaped(c)[1]);
            assert(read_literal(b) == (Literal::Escape, t));
        } else {
            assert(q + literal_body(s) =~= a.push(c));
            lemma_pushed(a, c);
            assert(s.contains(c));
        }
        assert(t.push(c) =~= s);
    }
}

/// Python reads text that was written as a string as the text that was written.
pub proof fn lemma_python_undoes_escaping(s: Seq<char>)
    requires
        !s.contains('\0'),
    ensures
        read_literal(literal(s)) == (Literal::Closed, s),
{
    lemma_open_literal(s);
    let a = seq!['"'] + literal_body(s);
    assert(literal(s) =~= a.push('"'));
    lemma_pushed(a, '"');
}

/// The command runs the program as it stands, backslashes, quotes and newlines included: the shell
/// hands Python a statement, and the string in that statement is the program.
pub proof fn lemma_command_runs_the_program(program: Seq<char>)
    requires
        !program.contains('\0'),
    ensures
        exists|word: Seq<char>|
            command_for(program) == "exec python3 -c "@ + word && #[trigger] shell_word(word) == (
                Quote::Outside,
                "exec("@ + literal(program) + ")"@,
            ),
        read_literal(literal(program)) == (Literal::Closed, program),
{
    reveal_strlit("exec python3 -c '");
    reveal_strlit("exec python3 -c ");
    reveal_strlit("'");
    let word = seq!['\''] + quoted(statement(program)) + seq!['\''];
    lemma_shell_undoes_quoting(statement(program));
    assert(command_for(program) =~= "exec python3 -c "@ + word);
    lemma_python_undoes_escaping(program);
}

} // verus!
