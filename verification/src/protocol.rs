//! The lines that client and server exchange.
//!
//! A client announces `DIRTY path` before it changes a file, `CLEAN path` once
//! the server has the change, and `PATCH path length` in front of that many
//! bytes of delta. It may `SUBSCRIBE` to `INVALIDATE path` lines, and it may
//! ask for `SHUTDOWN`. On the wire a path begins at the root of the workspace.
use vstd::prelude::*;
use crate::bytes::append_bytes;
use crate::bytes::ascii;
use crate::bytes::ascii_bytes;
use crate::bytes::bytes_eq;
use crate::bytes::copy_range;
use crate::bytes::decimal;
use crate::bytes::decimal_bytes;
use crate::bytes::find_byte;
use crate::bytes::find_from;
use crate::bytes::find_last_byte;
use crate::bytes::last_of;
use crate::bytes::line_body;
use crate::bytes::number;
use crate::bytes::read_number;
use crate::bytes::trim_end;
use crate::bytes::trimmed_end;
use crate::bytes::white_tail;
use crate::bytes::without_line_end;
use crate::bytes::NEWLINE;
use crate::bytes::RETURN;
use crate::bytes::SPACE;
use crate::digest::lossy;
use crate::digest::lossy_bytes;
use crate::path::components;
use crate::path::is_under;
use crate::path::join;
use crate::path::join_path;
use crate::path::names;
use crate::path::rooted;
use crate::path::same;
use crate::path::strip;
use crate::path::strip_prefix;
use crate::path::SLASH;

verus! {

/// What a line from a client asks of the server.
pub enum Request<P> {
    /// To be told of files that change on the server.
    Subscribe,
    /// To end the server.
    Shutdown,
    /// To lock a path: the client is about to change it.
    Dirty(P),
    /// To unlock a path: the server has the change.
    Clean(P),
    /// To apply the delta of the given length, which follows, to a path.
    Patch(P, usize),
    /// Nothing that the server knows.
    Ignored,
}

impl View for Request<Vec<u8>> {
    type V = Request<Seq<u8>>;

    open spec fn view(&self) -> Request<Seq<u8>> {
        match self {
            Request::Subscribe => Request::Subscribe,
            Request::Shutdown => Request::Shutdown,
            Request::Dirty(p) => Request::Dirty(p@),
            Request::Clean(p) => Request::Clean(p@),
            Request::Patch(p, n) => Request::Patch(p@, *n),
            Request::Ignored => Request::Ignored,
        }
    }
}

/// The request in a line: a word that says what is asked, and behind a space
/// the path, which goes up to the end of the line. In front of a delta the
/// last word is its length, and the path stands between. White space at the
/// end of the line counts only as part of a path.
pub open spec fn request(line: Seq<u8>) -> Request<Seq<u8>> {
    let t = trim_end(line);
    let a = find_from(t, SPACE, 0);
    let b = last_of(t, SPACE);
    let word = t.take(a);
    let path = line_body(line).skip(a + 1);
    let length = number(t.skip(b + 1), usize::MAX as nat);
    if word == ascii("SUBSCRIBE"@) {
        Request::Subscribe
    } else if word == ascii("SHUTDOWN"@) {
        Request::Shutdown
    } else if a == t.len() {
        Request::Ignored
    } else if word == ascii("DIRTY"@) {
        Request::Dirty(path)
    } else if word == ascii("CLEAN"@) {
        Request::Clean(path)
    } else if word == ascii("PATCH"@) && a < b && length is Some {
        Request::Patch(t.subrange(a + 1, b), length->0 as usize)
    } else {
        Request::Ignored
    }
}

/// Trimming drops at least the end of the line.
proof fn lemma_trim_body(line: Seq<u8>)
    ensures
        trim_end(line).len() <= line_body(line).len(),
    decreases line.len(),
{
    lemma_trim_shorter(line);
    reveal_with_fuel(trim_end, 3);
    if line.len() > 0 && line.last() == NEWLINE {
        let s = line.take(line.len() - 1);
        assert(s =~= line.drop_last());
        lemma_trim_shorter(s);
        if s.len() > 0 && s.last() == RETURN {
            lemma_trim_shorter(s.take(s.len() - 1));
        }
    } else if line.len() > 0 && line.last() == RETURN {
        lemma_trim_shorter(line.take(line.len() - 1));
    }
}

proof fn lemma_trim_shorter(s: Seq<u8>)
    ensures
        trim_end(s).len() <= s.len(),
    decreases s.len(),
{
    if white_tail(s) > 0 {
        lemma_trim_shorter(s.take(s.len() - white_tail(s)));
    }
}

/// Reads the request in a line from a client.
pub fn parse_request(line: &[u8]) -> (r: Request<Vec<u8>>)
    ensures
        r@ == request(line@),
{
    let t = trimmed_end(line);
    let a = find_byte(t.as_slice(), SPACE, 0);
    let word = copy_range(t.as_slice(), 0, a);
    proof {
        assert(t@.subrange(0, a as int) =~= t@.take(a as int));
        reveal_strlit("SUBSCRIBE");
        reveal_strlit("SHUTDOWN");
        reveal_strlit("DIRTY");
        reveal_strlit("CLEAN");
        reveal_strlit("PATCH");
        lemma_trim_body(line@);
    }
    if bytes_eq(word.as_slice(), ascii_bytes("SUBSCRIBE").as_slice()) {
        return Request::Subscribe;
    }
    if bytes_eq(word.as_slice(), ascii_bytes("SHUTDOWN").as_slice()) {
        return Request::Shutdown;
    }
    if a == t.len() {
        return Request::Ignored;
    }
    let body = without_line_end(line);
    let path = copy_range(body.as_slice(), a + 1, body.len());
    assert(path@ =~= body@.skip(a + 1));
    if bytes_eq(word.as_slice(), ascii_bytes("DIRTY").as_slice()) {
        return Request::Dirty(path);
    }
    if bytes_eq(word.as_slice(), ascii_bytes("CLEAN").as_slice()) {
        return Request::Clean(path);
    }
    if bytes_eq(word.as_slice(), ascii_bytes("PATCH").as_slice()) {
        if let Some(b) = find_last_byte(t.as_slice(), SPACE) {
            if a < b {
                let rest = copy_range(t.as_slice(), b + 1, t.len());
                assert(rest@ =~= t@.skip(b + 1));
                if let Some(n) = read_number(rest.as_slice(), usize::MAX as u64) {
                    return Request::Patch(copy_range(t.as_slice(), a + 1, b), n as usize);
                }
            }
        }
    }
    Request::Ignored
}

/// The path of a client's file as it stands on the wire: what is left of it
/// behind the remote root, from the root of the workspace.
pub open spec fn wire_path(root: Seq<u8>, path: Seq<u8>) -> Seq<u8> {
    join(
        seq![SLASH],
        match strip(path, root) {
            Some(r) => r,
            None => path,
        },
    )
}

/// The path of a client's file as it stands on the wire.
pub fn to_wire_path(root: &[u8], path: &[u8]) -> (r: Vec<u8>)
    ensures
        r@ == wire_path(root@, path@),
{
    let mut slash: Vec<u8> = Vec::new();
    slash.push(SLASH);
    assert(slash@ =~= seq![SLASH]);
    match strip_prefix(path, root) {
        Some(rest) => join_path(slash.as_slice(), rest.as_slice()),
        None => join_path(slash.as_slice(), path),
    }
}

/// A line of one word and a path.
pub open spec fn line_of(word: Seq<u8>, path: Seq<u8>) -> Seq<u8> {
    (word + lossy(path)).push(NEWLINE)
}

fn make_line(word: Vec<u8>, path: &[u8]) -> (r: Vec<u8>)
    ensures
        r@ == line_of(word@, path@),
{
    let mut r = word;
    let text = lossy_bytes(path);
    append_bytes(&mut r, text.as_slice());
    r.push(NEWLINE);
    r
}

/// The line that locks a client's file on the server.
pub open spec fn dirty_line(root: Seq<u8>, path: Seq<u8>) -> Seq<u8> {
    line_of(ascii("DIRTY "@), wire_path(root, path))
}

/// The line that unlocks a client's file on the server.
pub open spec fn clean_line(root: Seq<u8>, path: Seq<u8>) -> Seq<u8> {
    line_of(ascii("CLEAN "@), wire_path(root, path))
}

/// The line in front of a delta of `n` bytes for a client's file.
pub open spec fn patch_line(root: Seq<u8>, path: Seq<u8>, n: nat) -> Seq<u8> {
    (ascii("PATCH "@) + lossy(wire_path(root, path)) + seq![SPACE] + decimal(n)).push(NEWLINE)
}

/// The line that tells subscribers of a change to a path of the server.
pub open spec fn invalidate_line(path: Seq<u8>) -> Seq<u8> {
    line_of(ascii("INVALIDATE "@), join(seq![SLASH], path))
}

/// The line that locks a client's file on the server.
pub fn make_dirty_line(root: &[u8], path: &[u8]) -> (r: Vec<u8>)
    ensures
        r@ == dirty_line(root@, path@),
{
    proof {
        reveal_strlit("DIRTY ");
    }
    let wire = to_wire_path(root, path);
    make_line(ascii_bytes("DIRTY "), wire.as_slice())
}

/// The line that unlocks a client's file on the server.
pub fn make_clean_line(root: &[u8], path: &[u8]) -> (r: Vec<u8>)
    ensures
        r@ == clean_line(root@, path@),
{
    proof {
        reveal_strlit("CLEAN ");
    }
    let wire = to_wire_path(root, path);
    make_line(ascii_bytes("CLEAN "), wire.as_slice())
}

/// The line in front of a delta of `n` bytes for a client's file.
pub fn make_patch_line(root: &[u8], path: &[u8], n: usize) -> (r: Vec<u8>)
    ensures
        r@ == patch_line(root@, path@, n as nat),
{
    proof {
        reveal_strlit("PATCH ");
    }
    let wire = to_wire_path(root, path);
    let text = lossy_bytes(wire.as_slice());
    let mut r = ascii_bytes("PATCH ");
    append_bytes(&mut r, text.as_slice());
    r.push(SPACE);
    let digits = decimal_bytes(n as u64);
    append_bytes(&mut r, digits.as_slice());
    r.push(NEWLINE);
    assert(r@ =~= patch_line(root@, path@, n as nat));
    r
}

/// The line that tells subscribers of a change to a path of the server.
pub fn make_invalidate_line(path: &[u8]) -> (r: Vec<u8>)
    ensures
        r@ == invalidate_line(path@),
{
    proof {
        reveal_strlit("INVALIDATE ");
    }
    let mut slash: Vec<u8> = Vec::new();
    slash.push(SLASH);
    assert(slash@ =~= seq![SLASH]);
    let full = join_path(slash.as_slice(), path);
    make_line(ascii_bytes("INVALIDATE "), full.as_slice())
}

/// The line with which a client subscribes.
pub fn make_subscribe_line() -> (r: Vec<u8>)
    ensures
        r@ == ascii("SUBSCRIBE\n"@),
{
    proof {
        reveal_strlit("SUBSCRIBE\n");
    }
    ascii_bytes("SUBSCRIBE\n")
}

/// The line with which a client ends the server.
pub fn make_shutdown_line() -> (r: Vec<u8>)
    ensures
        r@ == ascii("SHUTDOWN\n"@),
{
    proof {
        reveal_strlit("SHUTDOWN\n");
    }
    ascii_bytes("SHUTDOWN\n")
}

/// The client's path that a line from the server calls changed; none where the
/// line says something else. The line comes without its line feed.
pub open spec fn notice(root: Seq<u8>, line: Seq<u8>) -> Option<Seq<u8>> {
    let a = find_from(line, SPACE, 0);
    let text = line.skip(a + 1);
    if a < line.len() && line.take(a) == ascii("INVALIDATE"@) {
        Some(
            join(
                root,
                if rooted(text) {
                    text.skip(1)
                } else {
                    text
                },
            ),
        )
    } else {
        None
    }
}

/// Reads the path in a line from the server.
pub fn parse_notice(root: &[u8], line: &[u8]) -> (r: Option<Vec<u8>>)
    ensures
        match r {
            Some(p) => notice(root@, line@) == Some(p@),
            None => notice(root@, line@) is None,
        },
{
    let a = find_byte(line, SPACE, 0);
    let word = copy_range(line, 0, a);
    assert(word@ =~= line@.take(a as int));
    proof {
        reveal_strlit("INVALIDATE");
    }
    if a == line.len() || !bytes_eq(word.as_slice(), ascii_bytes("INVALIDATE").as_slice()) {
        return None;
    }
    let start: usize = if a + 1 < line.len() && line[a + 1] == SLASH {
        a + 2
    } else {
        a + 1
    };
    let rest = copy_range(line, start, line.len());
    proof {
        let text = line@.skip(a + 1);
        assert(rooted(text) == (start == a + 2));
        if rooted(text) {
            assert(rest@ =~= text.skip(1));
        } else {
            assert(rest@ =~= text);
        }
    }
    Some(join_path(root, rest.as_slice()))
}

// ---------------------------------------------------------------------------
// What one side writes, the other side reads
// ---------------------------------------------------------------------------

/// Whether a path comes through a line unharmed: it is UTF-8 text without line
/// feeds, and does not end in a carriage return.
pub open spec fn sendable(path: Seq<u8>) -> bool {
    &&& vstd::utf8::valid_utf8(path)
    &&& forall|i: int| 0 <= i < path.len() ==> path[i] != NEWLINE
    &&& path.len() > 0 ==> path.last() != RETURN
}

proof fn lemma_trim_line(head: Seq<u8>, tail: Seq<u8>)
    requires
        head.len() > 0,
        head.last() == SPACE,
        tail.len() > 0,
        white_tail(tail) == 0,
    ensures
        trim_end((head + tail).push(NEWLINE)) == head + tail,
{
    let t = head + tail;
    let line = t.push(NEWLINE);
    assert(white_tail(line) == 1);
    assert(line.take(line.len() - 1) =~= t);
    let n = t.len() as int;
    assert(t[n - 1] == tail[tail.len() - 1]);
    if tail.len() >= 2 {
        assert(t[n - 2] == tail[tail.len() - 2]);
    } else {
        assert(t[n - 2] == SPACE);
    }
    if tail.len() >= 3 {
        assert(t[n - 3] == tail[tail.len() - 3]);
    } else if tail.len() == 2 {
        assert(t[n - 3] == SPACE);
    }
    assert(white_tail(t) == 0);
    reveal_with_fuel(trim_end, 2);
}

/// The path on the wire begins at the root.
pub proof fn lemma_wire_path_rooted(root: Seq<u8>, path: Seq<u8>)
    ensures
        rooted(wire_path(root, path)),
{
}

proof fn lemma_word_path(word: Seq<u8>, path: Seq<u8>)
    requires
        word.len() > 0,
        forall|i: int| 0 <= i < word.len() ==> word[i] != SPACE && word[i] != NEWLINE,
        sendable(path),
        rooted(path),
    ensures
        ({
            let line = line_of(word.push(SPACE), path);
            let t = trim_end(line);
            &&& word.len() < t.len()
            &&& find_from(t, SPACE, 0) == word.len()
            &&& t.take(word.len() as int) == word
            &&& line_body(line).skip(word.len() as int + 1) == path
            &&& find_from(line, NEWLINE, 0) == line.len() - 1
        }),
{
    let head = word.push(SPACE);
    let line = line_of(head, path);
    let t = trim_end(line);
    let n = word.len() as int;
    assert(line[n + 1] == path[0]);
    crate::bytes::lemma_trim_end(line, n + 1);
    assert(line[n] == SPACE);
    assert forall|i: int| 0 <= i < n implies t[i] != SPACE by {
        assert(t[i] == line[i] && line[i] == word[i]);
    }
    assert(t[n] == line[n]);
    crate::bytes::lemma_find_from_is(t, SPACE, 0, n);
    assert(t.take(n) =~= word);
    assert(line.drop_last() =~= head + path);
    assert((head + path).last() == path.last());
    assert(line_body(line) == head + path);
    assert((head + path).skip(n + 1) =~= path);
    assert forall|i: int| 0 <= i < line.len() - 1 implies line[i] != NEWLINE by {
        if i < n {
            assert(line[i] == word[i]);
        } else if i > n {
            assert(line[i] == path[i - n - 1]);
        }
    }
    crate::bytes::lemma_find_from_is(line, NEWLINE, 0, line.len() - 1);
}

/// The server reads a lock line as the lock of the path that the client meant,
/// and an unlock line as its unlock. Each is one line.
pub proof fn law_lock_lines_are_read(root: Seq<u8>, path: Seq<u8>)
    requires
        sendable(wire_path(root, path)),
    ensures
        request(dirty_line(root, path)) == Request::Dirty(wire_path(root, path)),
        request(clean_line(root, path)) == Request::Clean(wire_path(root, path)),
        find_from(dirty_line(root, path), NEWLINE, 0) == dirty_line(root, path).len() - 1,
        find_from(clean_line(root, path), NEWLINE, 0) == clean_line(root, path).len() - 1,
{
    let w = wire_path(root, path);
    lemma_wire_path_rooted(root, path);
    reveal_strlit("DIRTY");
    reveal_strlit("DIRTY ");
    reveal_strlit("CLEAN");
    reveal_strlit("CLEAN ");
    reveal_strlit("SUBSCRIBE");
    reveal_strlit("SHUTDOWN");
    assert(ascii("DIRTY "@) =~= ascii("DIRTY"@).push(SPACE));
    assert(ascii("CLEAN "@) =~= ascii("CLEAN"@).push(SPACE));
    assert(ascii("DIRTY"@).len() != ascii("SUBSCRIBE"@).len());
    assert(ascii("DIRTY"@).len() != ascii("SHUTDOWN"@).len());
    assert(ascii("CLEAN"@).len() != ascii("SUBSCRIBE"@).len());
    assert(ascii("CLEAN"@).len() != ascii("SHUTDOWN"@).len());
    assert(ascii("CLEAN"@)[0] != ascii("DIRTY"@)[0]);
    lemma_word_path(ascii("DIRTY"@), w);
    lemma_word_path(ascii("CLEAN"@), w);
}

/// The server reads a patch line as the path and the length that the client
/// meant.
pub proof fn law_patch_line_is_read(root: Seq<u8>, path: Seq<u8>, n: usize)
    requires
        sendable(wire_path(root, path)),
    ensures
        request(patch_line(root, path, n as nat)) == Request::Patch(wire_path(root, path), n),
        find_from(patch_line(root, path, n as nat), NEWLINE, 0) == patch_line(
            root,
            path,
            n as nat,
        ).len() - 1,
{
    let w = wire_path(root, path);
    let d = decimal(n as nat);
    let word = ascii("PATCH"@);
    lemma_wire_path_rooted(root, path);
    reveal_strlit("PATCH");
    reveal_strlit("PATCH ");
    reveal_strlit("DIRTY");
    reveal_strlit("CLEAN");
    reveal_strlit("SUBSCRIBE");
    reveal_strlit("SHUTDOWN");
    assert(ascii("PATCH "@) =~= word.push(SPACE));
    crate::bytes::law_decimal_reads_back(n as nat, usize::MAX as nat);
    let head = word.push(SPACE) + w + seq![SPACE];
    let line = patch_line(root, path, n as nat);
    assert(line =~= (head + d).push(NEWLINE));
    assert(crate::bytes::is_digit(d[d.len() - 1]));
    assert(white_tail(d) == 0) by {
        if d.len() >= 2 {
            assert(crate::bytes::is_digit(d[d.len() - 2]));
        }
    }
    lemma_trim_line(head, d);
    let t = head + d;
    let k = word.len() as int;
    let b = k + 1 + w.len();
    assert forall|i: int| 0 <= i < k implies t[i] != SPACE by {
        assert(t[i] == word[i]);
    }
    assert(t[k] == SPACE);
    crate::bytes::lemma_find_from_is(t, SPACE, 0, k);
    assert(t[b] == SPACE);
    assert forall|i: int| b < i < t.len() implies t[i] != SPACE by {
        assert(t[i] == d[i - b - 1]);
        assert(crate::bytes::is_digit(d[i - b - 1]));
    }
    crate::bytes::lemma_last_of_is(t, SPACE, b);
    assert(t.take(k) =~= word);
    assert(t.subrange(k + 1, b) =~= w);
    assert(t.skip(b + 1) =~= d);
    assert(word.len() != ascii("SUBSCRIBE"@).len());
    assert(word.len() != ascii("SHUTDOWN"@).len());
    assert(word[0] != ascii("DIRTY"@)[0]);
    assert(word[0] != ascii("CLEAN"@)[0]);
    assert forall|i: int| 0 <= i < line.len() - 1 implies line[i] != NEWLINE by {
        if i < k {
            assert(line[i] == word[i]);
        } else if k < i < b {
            assert(line[i] == w[i - k - 1]);
        } else if i > b {
            assert(line[i] == d[i - b - 1]);
            assert(crate::bytes::is_digit(d[i - b - 1]));
        }
    }
    crate::bytes::lemma_find_from_is(line, NEWLINE, 0, line.len() - 1);
}

/// The lines of a client without arguments are read as what they ask.
pub proof fn law_bare_lines_are_read()
    ensures
        request(ascii("SUBSCRIBE\n"@)) == Request::<Seq<u8>>::Subscribe,
        request(ascii("SHUTDOWN\n"@)) == Request::<Seq<u8>>::Shutdown,
{
    reveal_strlit("SUBSCRIBE");
    reveal_strlit("SHUTDOWN");
    reveal_strlit("SUBSCRIBE\n");
    reveal_strlit("SHUTDOWN\n");
    reveal_with_fuel(trim_end, 2);
    let a = ascii("SUBSCRIBE\n"@);
    let b = ascii("SHUTDOWN\n"@);
    assert(a.take(9) =~= ascii("SUBSCRIBE"@));
    assert(b.take(8) =~= ascii("SHUTDOWN"@));
    assert(white_tail(a) == 1 && white_tail(a.take(9)) == 0);
    assert(white_tail(b) == 1 && white_tail(b.take(8)) == 0);
    crate::bytes::lemma_find_from_is(a.take(9), SPACE, 0, 9);
    crate::bytes::lemma_find_from_is(b.take(8), SPACE, 0, 8);
    assert(a.take(9).take(9) =~= a.take(9));
    assert(b.take(8).take(8) =~= b.take(8));
    assert(ascii("SUBSCRIBE"@).len() != ascii("SHUTDOWN"@).len());
}

/// The path that the server locks for a client's file under the remote root
/// has the components that the file has below that root.
pub proof fn law_wire_path_components(root: Seq<u8>, path: Seq<u8>)
    requires
        is_under(path, root),
        components(root).len() > 0,
    ensures
        components(wire_path(root, path)) == seq![seq![SLASH]] + components(path).skip(
            components(root).len() as int,
        ),
{
    let r = strip(path, root)->0;
    crate::path::law_strip_components(path, root);
    crate::path::law_join_components(seq![SLASH], r);
    lemma_root_components();
}

/// The root has one component and no names.
pub proof fn lemma_root_components()
    ensures
        components(seq![SLASH]) == seq![seq![SLASH]],
        names(seq![SLASH]) == Seq::<Seq<u8>>::empty(),
{
    let s = seq![SLASH];
    assert(s =~= Seq::<u8>::empty().push(SLASH) + Seq::<u8>::empty());
    crate::path::lemma_names_cat(Seq::empty(), Seq::empty());
    assert(crate::path::spans_from(Seq::<u8>::empty(), 0) =~= Seq::empty());
    assert(names(Seq::<u8>::empty()) =~= Seq::empty());
    assert(names(s) =~= Seq::empty());
    assert(s.take(1) =~= s);
    assert(components(s) =~= seq![s]);
}

/// The line that tells of a path is one line, and is read as the path with the
/// components of the root and then the names of the path that it tells of.
pub proof fn lemma_invalidate_line(root: Seq<u8>, rel: Seq<u8>)
    requires
        sendable(rel),
        rooted(rel) ==> !rooted(rel.skip(1)),
        components(root).len() > 0,
    ensures
        ({
            let line = invalidate_line(rel);
            let told = notice(root, line.drop_last());
            &&& find_from(line, NEWLINE, 0) == line.len() - 1
            &&& told is Some
            &&& told->0 == join(
                root,
                if rooted(rel) {
                    rel.skip(1)
                } else {
                    rel
                },
            )
            &&& components(told->0) == components(root) + names(rel)
        }),
{
    let w = join(seq![SLASH], rel);
    let bare = if rooted(rel) {
        rel.skip(1)
    } else {
        rel
    };
    assert(w =~= seq![SLASH] + bare);
    assert(vstd::utf8::valid_utf8(w)) by {
        if !rooted(rel) {
            lemma_slash_text(rel);
        }
    }
    assert(lossy(w) == w);
    reveal_strlit("INVALIDATE");
    reveal_strlit("INVALIDATE ");
    let word = ascii("INVALIDATE"@);
    let head = ascii("INVALIDATE "@);
    assert(head =~= word.push(SPACE));
    let whole = invalidate_line(rel);
    let line = whole.drop_last();
    assert(line =~= head + w);
    let k = word.len() as int;
    assert forall|i: int| 0 <= i < k implies line[i] != SPACE by {
        assert(line[i] == word[i]);
    }
    assert(line[k] == SPACE);
    crate::bytes::lemma_find_from_is(line, SPACE, 0, k);
    assert(line.take(k) =~= word);
    assert(line.skip(k + 1) =~= w);
    assert(w.skip(1) =~= bare);
    assert(whole =~= line.push(NEWLINE));
    assert forall|i: int| 0 <= i < line.len() implies whole[i] != NEWLINE by {
        if i < k {
            assert(whole[i] == word[i]);
        } else if i > k + 1 {
            assert(whole[i] == bare[i - k - 2]);
            if rooted(rel) {
                assert(bare[i - k - 2] == rel[i - k - 1]);
            }
        }
    }
    crate::bytes::lemma_find_from_is(whole, NEWLINE, 0, line.len() as int);
    if root.len() == 0 {
        assert(crate::path::spans_from(root, 0) =~= Seq::empty());
        assert(components(root) =~= Seq::empty());
    }
    crate::path::law_join_components(root, bare);
    if rooted(rel) {
        lemma_root_components();
        crate::path::law_join_components(seq![SLASH], bare);
        assert(join(seq![SLASH], bare) =~= rel);
        assert(components(rel).skip(1) =~= names(rel));
        assert((components(seq![SLASH]) + names(bare)).skip(1) =~= names(bare));
    }
}

/// A separator in front of UTF-8 text leaves it UTF-8 text.
proof fn lemma_slash_text(t: Seq<u8>)
    requires
        vstd::utf8::valid_utf8(t),
    ensures
        vstd::utf8::valid_utf8(seq![SLASH] + t),
{
    let s = seq![SLASH] + t;
    assert(s.skip(1) =~= t);
    assert(s.subrange(1, s.len() as int) =~= t);
    assert(s[0] == SLASH);
}

/// A client that is told of a change to one of its files by the name that it
/// has on the wire, finds the same file again. What it is told is one line,
/// which does not end in a carriage return.
pub proof fn law_notice_names_the_file(root: Seq<u8>, path: Seq<u8>)
    requires
        is_under(path, root),
        components(root).len() > 0,
        sendable(wire_path(root, path)),
    ensures
        ({
            let line = invalidate_line(wire_path(root, path));
            let n = notice(root, line.drop_last());
            &&& find_from(line, NEWLINE, 0) == line.len() - 1
            &&& line.drop_last().last() != RETURN
            &&& n is Some
            &&& same(n->0, path)
        }),
{
    let w = wire_path(root, path);
    let r = strip(path, root)->0;
    lemma_wire_path_rooted(root, path);
    crate::path::law_strip_components(path, root);
    crate::path::law_strip_then_join(path, root);
    assert(w =~= seq![SLASH] + r);
    reveal_strlit("INVALIDATE");
    reveal_strlit("INVALIDATE ");
    let word = ascii("INVALIDATE"@);
    let head = ascii("INVALIDATE "@);
    assert(head =~= word.push(SPACE));
    let line = invalidate_line(w).drop_last();
    assert(line =~= head + w);
    let k = word.len() as int;
    assert forall|i: int| 0 <= i < k implies line[i] != SPACE by {
        assert(line[i] == word[i]);
    }
    assert(line[k] == SPACE);
    crate::bytes::lemma_find_from_is(line, SPACE, 0, k);
    assert(line.take(k) =~= word);
    assert(line.skip(k + 1) =~= w);
    assert(w.skip(1) =~= r);
    let whole = invalidate_line(w);
    assert(whole =~= line.push(NEWLINE));
    assert forall|i: int| 0 <= i < line.len() implies whole[i] != NEWLINE by {
        if i < k {
            assert(whole[i] == word[i]);
        } else if i > k {
            assert(whole[i] == w[i - k - 1]);
        }
    }
    crate::bytes::lemma_find_from_is(whole, NEWLINE, 0, line.len() as int);
    assert(line.last() == w.last());
}

// ---------------------------------------------------------------------------
// What a request was read from
// ---------------------------------------------------------------------------

proof fn lemma_head(line: Seq<u8>, word: Seq<u8>)
    requires
        ({
            let t = trim_end(line);
            let a = find_from(t, SPACE, 0);
            a < t.len() && t.take(a) == word
        }),
    ensures
        ({
            let t = trim_end(line);
            let a = find_from(t, SPACE, 0);
            &&& a == word.len()
            &&& t == word.push(SPACE) + t.skip(a + 1)
            &&& line_body(line) == word.push(SPACE) + line_body(line).skip(a + 1)
        }),
{
    let t = trim_end(line);
    let a = find_from(t, SPACE, 0);
    let b = line_body(line);
    crate::bytes::lemma_find_from(t, SPACE, 0);
    crate::bytes::law_trim_end(line);
    crate::bytes::law_line_body(line);
    lemma_trim_body(line);
    assert(t =~= word.push(SPACE) + t.skip(a + 1)) by {
        assert(forall|i: int| 0 <= i < a ==> t.take(a)[i] == t[i]);
    }
    assert forall|i: int| 0 <= i <= a implies b[i] == t[i] by {
        assert(t[i] == line[i]);
        assert(i < b.len());
        assert(b[i] == line[i]);
    }
    assert(b =~= word.push(SPACE) + b.skip(a + 1)) by {
        assert(forall|i: int| 0 <= i < a ==> t.take(a)[i] == t[i]);
    }
}

/// Nothing is asked that the line does not say: only a line that is `DIRTY`, a
/// space and a path locks, and it locks that path, up to the end of the line;
/// `CLEAN` in the same way; only `PATCH`, a path and a number announces a
/// delta, of that length for that path; and only lines whose first word says
/// so subscribe or end the server.
pub proof fn law_requests_are_in_the_line(line: Seq<u8>)
    ensures
        match request(line) {
            Request::Dirty(p) => line_body(line) == ascii("DIRTY "@) + p,
            Request::Clean(p) => line_body(line) == ascii("CLEAN "@) + p,
            Request::Patch(p, n) => exists|digits: Seq<u8>|
                #![trigger number(digits, usize::MAX as nat)]
                {
                    &&& trim_end(line) == ascii("PATCH "@) + p + seq![SPACE] + digits
                    &&& number(digits, usize::MAX as nat) == Some(n as nat)
                    &&& forall|i: int| 0 <= i < digits.len() ==> digits[i] != SPACE
                },
            Request::Subscribe => trim_end(line) == ascii("SUBSCRIBE"@) || trim_end(line).take(10)
                == ascii("SUBSCRIBE "@),
            Request::Shutdown => trim_end(line) == ascii("SHUTDOWN"@) || trim_end(line).take(9)
                == ascii("SHUTDOWN "@),
            Request::Ignored => true,
        },
{
    reveal_strlit("DIRTY");
    reveal_strlit("DIRTY ");
    reveal_strlit("CLEAN");
    reveal_strlit("CLEAN ");
    reveal_strlit("PATCH");
    reveal_strlit("PATCH ");
    reveal_strlit("SUBSCRIBE");
    reveal_strlit("SUBSCRIBE ");
    reveal_strlit("SHUTDOWN");
    reveal_strlit("SHUTDOWN ");
    let t = trim_end(line);
    let a = find_from(t, SPACE, 0);
    let word = t.take(a);
    crate::bytes::lemma_find_from(t, SPACE, 0);
    assert(ascii("DIRTY "@) =~= ascii("DIRTY"@).push(SPACE));
    assert(ascii("CLEAN "@) =~= ascii("CLEAN"@).push(SPACE));
    assert(ascii("PATCH "@) =~= ascii("PATCH"@).push(SPACE));
    assert(ascii("SUBSCRIBE "@) =~= ascii("SUBSCRIBE"@).push(SPACE));
    assert(ascii("SHUTDOWN "@) =~= ascii("SHUTDOWN"@).push(SPACE));
    if a < t.len() {
        lemma_head(line, word);
        if word == ascii("SUBSCRIBE"@) {
            assert(t.take(10) =~= word.push(SPACE));
        }
        if word == ascii("SHUTDOWN"@) {
            assert(t.take(9) =~= word.push(SPACE));
        }
    } else {
        assert(t.take(a) =~= t);
    }
    if let Request::Patch(p, n) = request(line) {
        let b = last_of(t, SPACE);
        let digits = t.skip(b + 1);
        lemma_last_of(t, SPACE);
        assert(t =~= ascii("PATCH "@) + p + seq![SPACE] + digits) by {
            let h = ascii("PATCH "@);
            assert(t.take(a + 1) =~= h);
            assert(t =~= t.take(a + 1) + t.subrange(a + 1, b) + seq![t[b]] + t.skip(b + 1));
        }
        assert(number(digits, usize::MAX as nat) == Some(n as nat));
    }
}

proof fn lemma_last_of(s: Seq<u8>, b: u8)
    ensures
        -1 <= last_of(s, b) < s.len(),
        last_of(s, b) >= 0 ==> s[last_of(s, b)] == b,
        forall|i: int| last_of(s, b) < i < s.len() ==> s[i] != b,
    decreases s.len(),
{
    if s.len() > 0 && s.last() != b {
        lemma_last_of(s.drop_last(), b);
        assert(forall|i: int| 0 <= i < s.len() - 1 ==> s.drop_last()[i] == s[i]);
    }
}

/// On the wire a path that does not lie under the client's remote root has its
/// own names, from the root on.
pub proof fn law_wire_path_elsewhere(root: Seq<u8>, path: Seq<u8>)
    requires
        !is_under(path, root),
    ensures
        rooted(path) ==> wire_path(root, path) == path,
        !rooted(path) ==> components(wire_path(root, path)) == seq![seq![SLASH]] + names(path),
{
    if !rooted(path) {
        lemma_root_components();
        crate::path::law_join_components(seq![SLASH], path);
    }
}

/// Only a line that begins with `INVALIDATE` and a space tells of a change; and
/// it tells of the path whose names follow, under the client's root, with or
/// without a separator in front of them.
pub proof fn law_notices_are_in_the_line(root: Seq<u8>, line: Seq<u8>, path: Seq<u8>)
    requires
        components(root).len() > 0,
        !rooted(path),
    ensures
        notice(root, line) is Some <==> line.len() >= 11 && line.take(11) == ascii(
            "INVALIDATE "@,
        ),
        ({
            let bare = notice(root, ascii("INVALIDATE "@) + path);
            let slashed = notice(root, ascii("INVALIDATE "@) + seq![SLASH] + path);
            &&& bare is Some && components(bare->0) == components(root) + names(path)
            &&& slashed is Some && slashed->0 == bare->0
        }),
{
    reveal_strlit("INVALIDATE");
    reveal_strlit("INVALIDATE ");
    let word = ascii("INVALIDATE"@);
    let head = ascii("INVALIDATE "@);
    assert(head =~= word.push(SPACE));
    let a = find_from(line, SPACE, 0);
    crate::bytes::lemma_find_from(line, SPACE, 0);
    if notice(root, line) is Some {
        assert(line.take(11) =~= head) by {
            assert(forall|i: int| 0 <= i < a ==> line.take(a)[i] == line[i]);
        }
    }
    if line.len() >= 11 && line.take(11) == head {
        lemma_notice_head(line);
    }
    let x = head + path;
    let y = head + seq![SLASH] + path;
    assert(x.take(11) =~= head);
    assert(y.take(11) =~= head);
    lemma_notice_head(x);
    lemma_notice_head(y);
    assert(x.skip(11) =~= path);
    assert(y.skip(11) =~= seq![SLASH] + path);
    assert(y.skip(11).skip(1) =~= path);
    if root.len() == 0 {
        assert(crate::path::spans_from(root, 0) =~= Seq::empty());
        assert(components(root) =~= Seq::empty());
    }
    crate::path::law_join_components(root, path);
}

proof fn lemma_notice_head(line: Seq<u8>)
    requires
        line.len() >= 11,
        line.take(11) == ascii("INVALIDATE "@),
    ensures
        find_from(line, SPACE, 0) == 10,
        line.take(10) == ascii("INVALIDATE"@),
{
    reveal_strlit("INVALIDATE");
    reveal_strlit("INVALIDATE ");
    let head = ascii("INVALIDATE "@);
    assert forall|i: int| 0 <= i < 11 implies line[i] == head[i] by {
        assert(line.take(11)[i] == line[i]);
    }
    crate::bytes::lemma_find_from_is(line, SPACE, 0, 10);
    assert(line.take(10) =~= ascii("INVALIDATE"@));
}

} // verus!
