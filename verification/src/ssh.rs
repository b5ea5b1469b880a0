//! How a client reaches the remote side.
use vstd::prelude::*;
use vstd::utf8::encode_utf8;
use crate::bytes::number;
use crate::bytes::read_number;

verus! {

/// The port of an SSH server, where none is given.
pub const SSH_PORT: u16 = 22;

/// The place of the first `c` in `s` from `i` on, or the length of `s`.
pub open spec fn find_char(s: Seq<char>, c: char, i: int) -> int
    decreases s.len() - i,
{
    if i < 0 || i >= s.len() {
        s.len() as int
    } else if s[i] == c {
        i
    } else {
        find_char(s, c, i + 1)
    }
}

fn find_in_text(s: &str, c: char, i: usize) -> (r: usize)
    requires
        i <= s@.len(),
    ensures
        r == find_char(s@, c, i as int),
        i <= r <= s@.len(),
{
    let n = s.unicode_len();
    let mut k: usize = i;
    while k < n
        invariant
            i <= k <= n,
            n == s@.len(),
            find_char(s@, c, k as int) == find_char(s@, c, i as int),
        decreases n - k,
    {
        if s.get_char(k) == c {
            return k;
        }
        k += 1;
    }
    k
}

/// Whether there is one `c` in the text.
pub open spec fn has_one(s: Seq<char>, c: char) -> bool {
    let a = find_char(s, c, 0);
    a < s.len() && find_char(s, c, a + 1) == s.len()
}

fn text_has_one(s: &str, c: char) -> (r: Option<usize>)
    ensures
        match r {
            Some(a) => has_one(s@, c) && a == find_char(s@, c, 0) && a < s@.len(),
            None => !has_one(s@, c),
        },
{
    let n = s.unicode_len();
    let a = find_in_text(s, c, 0);
    if a < n && find_in_text(s, c, a + 1) == n {
        Some(a)
    } else {
        None
    }
}

/// What stands in front of the first colon, and what stands behind it, where
/// there is one.
pub open spec fn cut(s: Seq<char>) -> (Seq<char>, Option<Seq<char>>) {
    let a = find_char(s, ':', 0);
    if a < s.len() {
        (s.take(a), Some(s.skip(a + 1)))
    } else {
        (s, None)
    }
}

fn cut_text(s: &str) -> (r: (String, Option<String>))
    ensures
        r.0@ == cut(s@).0,
        match r.1 {
            Some(t) => cut(s@).1 == Some(t@),
            None => cut(s@).1 is None,
        },
{
    let n = s.unicode_len();
    let a = find_in_text(s, ':', 0);
    if a < n {
        let head = s.substring_char(0, a);
        let tail = s.substring_char(a + 1, n);
        assert(head@ =~= s@.take(a as int));
        assert(tail@ =~= s@.skip(a + 1));
        (head.to_owned(), Some(tail.to_owned()))
    } else {
        (s.to_owned(), None)
    }
}

/// Where a client logs in: the user, perhaps a password, the host and the
/// port.
#[verifier::ext_equal]
pub struct Login {
    pub user: Seq<char>,
    pub password: Option<Seq<char>>,
    pub host: Seq<char>,
    pub port: u16,
}

/// What a connection string of the form `user[:password]@host[:port]` says. A
/// port that is no port number counts for none.
pub open spec fn login(s: Seq<char>) -> Login {
    let a = find_char(s, '@', 0);
    let left = cut(s.take(a));
    let right = cut(s.skip(a + 1));
    Login {
        user: left.0,
        password: left.1,
        host: right.0,
        port: match right.1 {
            Some(t) => match number(encode_utf8(t), u16::MAX as nat) {
                Some(n) => n as u16,
                None => SSH_PORT,
            },
            None => SSH_PORT,
        },
    }
}

/// Whether a connection string has the form `user[:password]@host[:port]`.
pub fn is_ssh_string(s: &str) -> (r: bool)
    ensures
        r == has_one(s@, '@'),
{
    text_has_one(s, '@').is_some()
}

/// Reads a connection string of the form `user[:password]@host[:port]`.
pub fn parse_ssh_string(s: &str) -> (r: (String, Option<String>, String, u16))
    requires
        has_one(s@, '@'),
    ensures
        r.0@ == login(s@).user,
        match r.1 {
            Some(pw) => login(s@).password == Some(pw@),
            None => login(s@).password is None,
        },
        r.2@ == login(s@).host,
        r.3 == login(s@).port,
{
    let n = s.unicode_len();
    let a = match text_has_one(s, '@') {
        Some(a) => a,
        None => n,
    };
    let left = s.substring_char(0, a);
    let right = s.substring_char(a + 1, n);
    assert(left@ =~= s@.take(a as int));
    assert(right@ =~= s@.skip(a + 1));
    let (user, password) = cut_text(left);
    let (host, port_text) = cut_text(right);
    let port: u16 = match port_text {
        Some(t) => match read_number(t.as_str().as_bytes(), 65535) {
            Some(p) => p as u16,
            None => SSH_PORT,
        },
        None => SSH_PORT,
    };
    (user, password, host, port)
}

/// The port of the signals, where the address of the signal server gives none.
pub open spec fn signal_port(server: Seq<char>) -> Seq<char> {
    if has_one(server, ':') {
        server.skip(find_char(server, ':', 0) + 1)
    } else {
        "8080"@
    }
}

/// The port of the signals: what stands behind the colon of the signal
/// server's address, where there is one colon.
pub fn remote_signal_port(server: &str) -> (r: String)
    ensures
        r@ == signal_port(server@),
{
    match text_has_one(server, ':') {
        Some(a) => {
            let n = server.unicode_len();
            let tail = server.substring_char(a + 1, n);
            assert(tail@ =~= server@.skip(a + 1));
            tail.to_owned()
        },
        None => "8080".to_owned(),
    }
}

/// The address of the near end of the tunnel for signals.
pub fn local_signal_server(port: &str) -> (r: String)
    ensures
        r@ == "127.0.0.1:"@ + port@,
{
    "127.0.0.1:".to_owned().concat(port)
}

/// A number in decimal notation.
pub open spec fn decimal_text(n: nat) -> Seq<char>
    decreases n,
{
    if n < 10 {
        seq![(48 + n) as char]
    } else {
        decimal_text(n / 10).push((48 + n % 10) as char)
    }
}

fn digit_text(n: u64) -> (r: String)
    requires
        n < 10,
    ensures
        r@ == seq![(48 + n) as char],
{
    proof {
        reveal_strlit("0123456789");
    }
    let all = "0123456789";
    let d = all.substring_char(n as usize, n as usize + 1);
    assert(all@[n as int] == (48 + n) as char);
    assert(d@ =~= seq![(48 + n) as char]);
    d.to_owned()
}

/// A number in decimal notation.
pub fn make_decimal_text(n: u64) -> (r: String)
    ensures
        r@ == decimal_text(n as nat),
    decreases n,
{
    if n < 10 {
        digit_text(n)
    } else {
        let head = make_decimal_text(n / 10);
        let last = digit_text(n % 10);
        let r = head.concat(last.as_str());
        assert(r@ =~= decimal_text(n as nat));
        r
    }
}

/// The address of an SSH server.
pub fn ssh_address(host: &str, port: u16) -> (r: String)
    ensures
        r@ == host@ + ":"@ + decimal_text(port as nat),
{
    let p = make_decimal_text(port as u64);
    host.to_owned().concat(":").concat(p.as_str())
}

/// The texts of strings.
pub open spec fn texts(v: Seq<String>) -> Seq<Seq<char>> {
    v.map_values(|s: String| s@)
}

/// The arguments with which `ssh` opens a tunnel for signals from a port of
/// this machine to the same port of the remote one.
pub open spec fn tunnel_args(
    user: Seq<char>,
    host: Seq<char>,
    port: u16,
    signals: Seq<char>,
) -> Seq<Seq<char>> {
    seq![
        "-N"@,
        "-L"@,
        signals + ":127.0.0.1:"@ + signals,
        user + "@"@ + host,
        "-p"@,
        decimal_text(port as nat),
    ]
}

/// The command that opens a tunnel for signals: a program and its arguments.
/// A password is handed over by `sshpass`.
pub open spec fn tunnel(login: Login, signals: Seq<char>) -> Seq<Seq<char>> {
    let args = tunnel_args(login.user, login.host, login.port, signals);
    match login.password {
        Some(pw) => seq!["sshpass"@, "-p"@, pw, "ssh"@] + args,
        None => seq!["ssh"@] + args,
    }
}

/// The command that opens a tunnel for signals: a program and its arguments.
pub fn tunnel_command(
    user: &str,
    password: Option<&str>,
    host: &str,
    port: u16,
    signals: &str,
) -> (r: Vec<String>)
    ensures
        texts(r@) == tunnel(
            (Login {
                user: user@,
                password: match password {
                    Some(pw) => Some(pw@),
                    None => None,
                },
                host: host@,
                port,
            }),
            signals@,
        ),
{
    let mut r: Vec<String> = Vec::new();
    if let Some(pw) = password {
        r.push("sshpass".to_owned());
        r.push("-p".to_owned());
        r.push(pw.to_owned());
    }
    r.push("ssh".to_owned());
    r.push("-N".to_owned());
    r.push("-L".to_owned());
    r.push(signals.to_owned().concat(":127.0.0.1:").concat(signals));
    r.push(user.to_owned().concat("@").concat(host));
    r.push("-p".to_owned());
    r.push(make_decimal_text(port as u64));
    proof {
        let l = Login {
            user: user@,
            password: match password {
                Some(pw) => Some(pw@),
                None => None,
            },
            host: host@,
            port,
        };
        assert(texts(r@) =~= tunnel(l, signals@));
    }
    r
}

/// Where the server daemon is loaded from: what the user says, or the latest
/// release.
pub fn daemon_url(given: Option<String>) -> (r: String)
    ensures
        r@ == match given {
            Some(u) => u@,
            None =>
                "https://github.com/mkhisty/slipspace/releases/latest/download/server-daemon-musl"@,
        },
{
    match given {
        Some(u) => u,
        None =>
            "https://github.com/mkhisty/slipspace/releases/latest/download/server-daemon-musl".to_owned(),
    }
}

/// The remote command that loads the server daemon and starts it over `path`
/// in the background.
pub open spec fn install(url: Seq<char>, path: Seq<char>) -> Seq<char> {
    "curl -L -o /tmp/slipspace_server_daemon '"@ + url
        + "' && chmod +x /tmp/slipspace_server_daemon && nohup /tmp/slipspace_server_daemon --path '"@
        + path + "' > /tmp/slipspace_server.log 2>&1 &"@
}

/// The remote command that loads the server daemon and starts it over `path`
/// in the background.
pub fn install_command(url: &str, path: &str) -> (r: String)
    ensures
        r@ == install(url@, path@),
{
    "curl -L -o /tmp/slipspace_server_daemon '".to_owned().concat(url).concat(
        "' && chmod +x /tmp/slipspace_server_daemon && nohup /tmp/slipspace_server_daemon --path '",
    ).concat(path).concat("' > /tmp/slipspace_server.log 2>&1 &")
}

/// How often a client looks for a daemon that it has just had started.
pub const INSTALL_TRIES: u32 = 5;

/// Whether a client that has looked so often for the daemon looks again: until
/// it is there, and no more often than it may.
pub fn look_again(looks: u32, reachable: bool) -> (r: bool)
    ensures
        r == (!reachable && looks < INSTALL_TRIES),
{
    !reachable && looks < INSTALL_TRIES
}

// ---------------------------------------------------------------------------
// What a connection string says
// ---------------------------------------------------------------------------

/// A connection string with everything that a login has.
pub open spec fn ssh_string(l: Login) -> Seq<char> {
    l.user + match l.password {
        Some(pw) => seq![':'] + pw,
        None => Seq::empty(),
    } + seq!['@'] + l.host + seq![':'] + decimal_text(l.port as nat)
}

/// Whether `c` does not occur in the text.
pub open spec fn lacks(s: Seq<char>, c: char) -> bool {
    forall|i: int| 0 <= i < s.len() ==> s[i] != c
}

proof fn lemma_find_char_is(s: Seq<char>, c: char, i: int, k: int)
    requires
        0 <= i <= k <= s.len(),
        forall|j: int| i <= j < k ==> s[j] != c,
        k < s.len() ==> s[k] == c,
    ensures
        find_char(s, c, i) == k,
    decreases k - i,
{
    if i < k {
        lemma_find_char_is(s, c, i + 1, k);
    }
}

proof fn lemma_decimal_text(n: nat)
    ensures
        crate::bytes::ascii(decimal_text(n)) == crate::bytes::decimal(n),
        forall|i: int|
            0 <= i < decimal_text(n).len() ==> '0' <= #[trigger] decimal_text(n)[i] <= '9',
    decreases n,
{
    if n < 10 {
        assert(crate::bytes::ascii(decimal_text(n)) =~= crate::bytes::decimal(n));
    } else {
        lemma_decimal_text(n / 10);
        let t = decimal_text(n / 10);
        assert forall|i: int| 0 <= i < decimal_text(n).len() implies '0'
            <= #[trigger] decimal_text(n)[i] <= '9' by {
            if i < t.len() {
                assert(decimal_text(n)[i] == t[i]);
            }
        }
        assert(crate::bytes::ascii(decimal_text(n)) =~= crate::bytes::decimal(n));
    }
}

/// A connection string says of a login what the login has: a user without
/// colon and at sign, a password without at sign, a host without either, and
/// any port.
pub proof fn law_login_reads_back(l: Login)
    requires
        lacks(l.user, '@'),
        lacks(l.user, ':'),
        l.password is Some ==> lacks(l.password->0, '@'),
        lacks(l.host, '@'),
        lacks(l.host, ':'),
    ensures
        has_one(ssh_string(l), '@'),
        login(ssh_string(l)) == l,
{
    let s = ssh_string(l);
    let digits = decimal_text(l.port as nat);
    let left = l.user + match l.password {
        Some(pw) => seq![':'] + pw,
        None => Seq::empty(),
    };
    let right = l.host + seq![':'] + digits;
    let a = left.len() as int;
    lemma_decimal_text(l.port as nat);
    assert(s =~= left + seq!['@'] + right);
    assert forall|j: int| 0 <= j < a implies s[j] != '@' by {
        assert(s[j] == left[j]);
        if j < l.user.len() {
            assert(left[j] == l.user[j]);
        } else if j > l.user.len() {
            assert(left[j] == l.password->0[j - l.user.len() - 1]);
        }
    }
    lemma_find_char_is(s, '@', 0, a);
    let h = l.host.len() as int;
    assert forall|j: int| a + 1 <= j < s.len() implies s[j] != '@' by {
        assert(s[j] == right[j - a - 1]);
        if j - a - 1 < h {
            assert(right[j - a - 1] == l.host[j - a - 1]);
        } else if j - a - 1 > h {
            assert(right[j - a - 1] == digits[j - a - 2 - h]);
        }
    }
    lemma_find_char_is(s, '@', a + 1, s.len() as int);
    assert(s.take(a) =~= left);
    assert(s.skip(a + 1) =~= right);
    let u = l.user.len() as int;
    assert forall|j: int| 0 <= j < u implies left[j] != ':' by {
        assert(left[j] == l.user[j]);
    }
    lemma_find_char_is(left, ':', 0, u);
    assert(left.take(u) =~= l.user);
    if l.password is Some {
        assert(left.skip(u + 1) =~= l.password->0);
    }
    assert forall|j: int| 0 <= j < h implies right[j] != ':' by {
        assert(right[j] == l.host[j]);
    }
    lemma_find_char_is(right, ':', 0, h);
    assert(right.take(h) =~= l.host);
    assert(right.skip(h + 1) =~= digits);
    assert forall|i: int| 0 <= i < digits.len() implies '\0' <= #[trigger] digits[i]
        <= '\u{7f}' by {
        assert('0' <= digits[i] <= '9');
    }
    vstd::utf8::is_ascii_chars_encode_utf8(digits);
    assert(encode_utf8(digits) =~= crate::bytes::ascii(digits));
    crate::bytes::law_decimal_reads_back(l.port as nat, u16::MAX as nat);
}

/// A text has one of a character where it stands at one place and at no other.
pub proof fn law_has_one(s: Seq<char>, c: char)
    ensures
        has_one(s, c) <==> exists|i: int|
            #![trigger s[i]]
            0 <= i < s.len() && s[i] == c && forall|j: int|
                0 <= j < s.len() && j != i ==> s[j] != c,
{
    lemma_find_char(s, c, 0);
    let a = find_char(s, c, 0);
    if a < s.len() {
        lemma_find_char(s, c, a + 1);
    }
    if has_one(s, c) {
        assert(s[a] == c);
        assert(forall|j: int| 0 <= j < s.len() && j != a ==> s[j] != c);
    }
    if exists|i: int|
        #![trigger s[i]]
        0 <= i < s.len() && s[i] == c && forall|j: int|
            0 <= j < s.len() && j != i ==> s[j] != c {
        let i = choose|i: int|
            #![trigger s[i]]
            0 <= i < s.len() && s[i] == c && forall|j: int|
                0 <= j < s.len() && j != i ==> s[j] != c;
        lemma_find_char_is(s, c, 0, i);
        lemma_find_char_is(s, c, i + 1, s.len() as int);
    }
}

proof fn lemma_find_char(s: Seq<char>, c: char, i: int)
    requires
        0 <= i <= s.len(),
    ensures
        i <= find_char(s, c, i) <= s.len(),
        forall|j: int| i <= j < find_char(s, c, i) ==> s[j] != c,
        find_char(s, c, i) < s.len() ==> s[find_char(s, c, i)] == c,
    decreases s.len() - i,
{
    if i < s.len() && s[i] != c {
        lemma_find_char(s, c, i + 1);
    }
}

/// Without a port the port is 22, and so it is where what stands behind the
/// colon is no number up to 65535.
pub proof fn law_usual_port(left: Seq<char>, host: Seq<char>, tail: Seq<char>)
    requires
        lacks(left, '@'),
        lacks(host, '@'),
        lacks(host, ':'),
        lacks(tail, '@'),
    ensures
        ({
            let s = left + seq!['@'] + host;
            &&& has_one(s, '@')
            &&& login(s).host == host
            &&& login(s).port == 22
        }),
        ({
            let s = left + seq!['@'] + host + seq![':'] + tail;
            &&& has_one(s, '@')
            &&& login(s).host == host
            &&& number(encode_utf8(tail), 65535) is None ==> login(s).port == 22
            &&& number(encode_utf8(tail), 65535) is Some ==> login(s).port as nat == number(
                encode_utf8(tail),
                65535,
            )->0
        }),
{
    let a = left.len() as int;
    let s = left + seq!['@'] + host;
    lemma_find_char_is(s, '@', 0, a);
    lemma_find_char_is(s, '@', a + 1, s.len() as int);
    assert(s.skip(a + 1) =~= host);
    lemma_find_char_is(host, ':', 0, host.len() as int);
    let t = left + seq!['@'] + host + seq![':'] + tail;
    let right = host + seq![':'] + tail;
    lemma_find_char_is(t, '@', 0, a);
    lemma_find_char_is(t, '@', a + 1, t.len() as int);
    assert(t.skip(a + 1) =~= right);
    let h = host.len() as int;
    lemma_find_char_is(right, ':', 0, h);
    assert(right.take(h) =~= host);
    assert(right.skip(h + 1) =~= tail);
}

/// The port of the signals is what stands behind the colon of an address with
/// one colon, and else 8080.
pub proof fn law_signal_port(host: Seq<char>, port: Seq<char>, other: Seq<char>)
    requires
        lacks(host, ':'),
        lacks(port, ':'),
    ensures
        signal_port(host + seq![':'] + port) == port,
        !has_one(other, ':') ==> signal_port(other) == "8080"@,
{
    let s = host + seq![':'] + port;
    let h = host.len() as int;
    lemma_find_char_is(s, ':', 0, h);
    lemma_find_char_is(s, ':', h + 1, s.len() as int);
    assert(s.skip(h + 1) =~= port);
}

/// The command that opens the tunnel leads the port of this machine to the same
/// port of the remote one, logs in as the user at the host and its port, and
/// differs with a password only in the words in front that hand it over.
pub proof fn law_tunnel(l: Login, signals: Seq<char>)
    ensures
        ({
            let c = tunnel(l, signals);
            let k = if l.password is Some {
                3int
            } else {
                0int
            };
            &&& c.len() == k + 7
            &&& c[k] == "ssh"@ && c[k + 1] == "-N"@ && c[k + 2] == "-L"@
            &&& c[k + 3] == signals + ":127.0.0.1:"@ + signals
            &&& c[k + 4] == l.user + "@"@ + l.host
            &&& c[k + 5] == "-p"@
            &&& number(encode_utf8(c[k + 6]), 65535) == Some(l.port as nat)
            &&& l.password is Some ==> c[0] == "sshpass"@ && c[1] == "-p"@ && c[2]
                == l.password->0
        }),
{
    let digits = decimal_text(l.port as nat);
    lemma_decimal_text(l.port as nat);
    assert forall|i: int| 0 <= i < digits.len() implies '\0' <= #[trigger] digits[i]
        <= '\u{7f}' by {
        assert('0' <= digits[i] <= '9');
    }
    vstd::utf8::is_ascii_chars_encode_utf8(digits);
    assert(encode_utf8(digits) =~= crate::bytes::ascii(digits));
    crate::bytes::law_decimal_reads_back(l.port as nat, u16::MAX as nat);
}

/// The command that installs the daemon names the address that it is loaded
/// from first, and the directory that it is started over behind it, each once
/// and in quotes.
pub proof fn law_install(url: Seq<char>, path: Seq<char>)
    ensures
        ({
            let c = install(url, path);
            let a = "curl -L -o /tmp/slipspace_server_daemon '"@;
            let b =
                "' && chmod +x /tmp/slipspace_server_daemon && nohup /tmp/slipspace_server_daemon --path '"@;
            let e = "' > /tmp/slipspace_server.log 2>&1 &"@;
            &&& c.len() == a.len() + url.len() + b.len() + path.len() + e.len()
            &&& c.subrange(a.len() as int, (a.len() + url.len()) as int) == url
            &&& c.subrange(
                (a.len() + url.len() + b.len()) as int,
                (a.len() + url.len() + b.len() + path.len()) as int,
            ) == path
            &&& c.take(a.len() as int) == a
            &&& c.skip(c.len() - e.len()) == e
        }),
{
    let c = install(url, path);
    let a = "curl -L -o /tmp/slipspace_server_daemon '"@;
    let b =
        "' && chmod +x /tmp/slipspace_server_daemon && nohup /tmp/slipspace_server_daemon --path '"@;
    let e = "' > /tmp/slipspace_server.log 2>&1 &"@;
    assert(c.subrange(a.len() as int, (a.len() + url.len()) as int) =~= url);
    assert(c.subrange(
        (a.len() + url.len() + b.len()) as int,
        (a.len() + url.len() + b.len() + path.len()) as int,
    ) =~= path);
    assert(c.take(a.len() as int) =~= a);
    assert(c.skip(c.len() - e.len()) =~= e);
}

} // verus!
