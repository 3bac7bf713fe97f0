use vstd::prelude::*;

use crate::text::{
    all_digits, all_free_of, chars_of, decimal, digits_value, free_of, join_with,
    lemma_decimal_free_of, lemma_parse_decimal, lemma_split_join, lemma_split_on_append_free,
    lemma_split_on_concat, lemma_split_on_nonempty, parse_u64, parse_u8, parse_unsigned,
    push_char, push_decimal, split_chars, split_on, string_of,
};
use crate::settings::REDIR_LIMIT;
use crate::utils::{
    key_from_chars, key_text, key_to_string, lemma_key_roundtrip, lemma_key_text_free_of,
    lemma_tag_roundtrip, parse_key, plain_tags, strings_view, tag_text, tag_to_string,
};

verus! {

/// The commands that clients send each other: JOIN, LEAVE and MSG.
#[derive(Clone, Debug, PartialEq, Eq)]
pub enum NetCommand {
    Join {
        username: String,
        public_key: [u8; 32],
        timestamp: u64,
        salt: String,
        evidence: String,
    },
    Leave {
        username: String,
        public_key: [u8; 32],
        timestamp: u64,
        salt: String,
        evidence: String,
    },
    Message {
        username: String,
        public_key: [u8; 32],
        timestamp: u64,
        content: String,
        tags: Vec<String>,
        salt: String,
        evidence: String,
    },
}

/// What a command holds, as plain values.
pub enum CommandView {
    Join {
        username: Seq<char>,
        public_key: Seq<u8>,
        timestamp: u64,
        salt: Seq<char>,
        evidence: Seq<char>,
    },
    Leave {
        username: Seq<char>,
        public_key: Seq<u8>,
        timestamp: u64,
        salt: Seq<char>,
        evidence: Seq<char>,
    },
    Message {
        username: Seq<char>,
        public_key: Seq<u8>,
        timestamp: u64,
        content: Seq<char>,
        tags: Seq<Seq<char>>,
        salt: Seq<char>,
        evidence: Seq<char>,
    },
}

impl View for NetCommand {
    type V = CommandView;

    open spec fn view(&self) -> CommandView {
        match self {
            NetCommand::Join { username, public_key, timestamp, salt, evidence } => CommandView::Join {
                username: username@,
                public_key: public_key@,
                timestamp: *timestamp,
                salt: salt@,
                evidence: evidence@,
            },
            NetCommand::Leave { username, public_key, timestamp, salt, evidence } => CommandView::Leave {
                username: username@,
                public_key: public_key@,
                timestamp: *timestamp,
                salt: salt@,
                evidence: evidence@,
            },
            NetCommand::Message {
                username,
                public_key,
                timestamp,
                content,
                tags,
                salt,
                evidence,
            } => CommandView::Message {
                username: username@,
                public_key: public_key@,
                timestamp: *timestamp,
                content: content@,
                tags: strings_view(tags@),
                salt: salt@,
                evidence: evidence@,
            },
        }
    }
}

/// The views of a sequence of commands.
pub open spec fn commands_view(v: Seq<NetCommand>) -> Seq<CommandView> {
    v.map_values(|c: NetCommand| c@)
}

pub open spec fn join_word() -> Seq<char> {
    seq!['J', 'O', 'I', 'N']
}

pub open spec fn leave_word() -> Seq<char> {
    seq!['L', 'E', 'A', 'V', 'E']
}

pub open spec fn msg_word() -> Seq<char> {
    seq!['M', 'S', 'G']
}

/// The fields of a command on the wire, in order, the command's name first.
pub open spec fn command_fields(c: CommandView) -> Seq<Seq<char>> {
    match c {
        CommandView::Join { username, public_key, timestamp, salt, evidence } => seq![
            join_word(),
            username,
            key_text(public_key),
            decimal(timestamp as nat),
            salt,
            evidence,
        ],
        CommandView::Leave { username, public_key, timestamp, salt, evidence } => seq![
            leave_word(),
            username,
            key_text(public_key),
            decimal(timestamp as nat),
            salt,
            evidence,
        ],
        CommandView::Message { username, public_key, timestamp, content, tags, salt, evidence } =>
            seq![
            msg_word(),
            username,
            key_text(public_key),
            decimal(timestamp as nat),
            content,
            tag_text(tags),
            salt,
            evidence,
        ],
    }
}

/// Each field followed by a null character.
pub open spec fn framed(fields: Seq<Seq<char>>) -> Seq<char>
    decreases fields.len(),
{
    if fields.len() == 0 {
        Seq::<char>::empty()
    } else {
        framed(fields.drop_last()) + fields.last().push('\0')
    }
}

/// The text of a command on the wire: `NAME \0 FIELD \0 FIELD \0 ... \0`.
pub open spec fn command_text(c: CommandView) -> Seq<char> {
    framed(command_fields(c))
}

proof fn lemma_framed_push(fields: Seq<Seq<char>>, x: Seq<char>)
    ensures
        framed(fields.push(x)) == framed(fields) + x.push('\0'),
{
    assert(fields.push(x).drop_last() == fields);
}

/// Appends `field` and a null character to `res`.
fn push_field(res: &mut String, field: &str)
    ensures
        final(res)@ == old(res)@ + field@.push('\0'),
{
    res.append(field);
    push_char(res, '\0');
}

/// The text that a command's evidence signs: its wire text up to the evidence field.
pub open spec fn signed_text(c: CommandView) -> Seq<char> {
    framed(command_fields(c).drop_last())
}

/// A command's evidence field.
pub open spec fn command_evidence(c: CommandView) -> Seq<char> {
    match c {
        CommandView::Join { evidence, .. } => evidence,
        CommandView::Leave { evidence, .. } => evidence,
        CommandView::Message { evidence, .. } => evidence,
    }
}

/// A command's public key.
pub open spec fn command_key(c: CommandView) -> Seq<u8> {
    match c {
        CommandView::Join { public_key, .. } => public_key,
        CommandView::Leave { public_key, .. } => public_key,
        CommandView::Message { public_key, .. } => public_key,
    }
}

/// A command's timestamp.
pub open spec fn command_timestamp(c: CommandView) -> u64 {
    match c {
        CommandView::Join { timestamp, .. } => timestamp,
        CommandView::Leave { timestamp, .. } => timestamp,
        CommandView::Message { timestamp, .. } => timestamp,
    }
}

/// A command's salt.
pub open spec fn command_salt(c: CommandView) -> Seq<char> {
    match c {
        CommandView::Join { salt, .. } => salt,
        CommandView::Leave { salt, .. } => salt,
        CommandView::Message { salt, .. } => salt,
    }
}

/// The same command with another evidence field.
pub open spec fn replace_evidence(c: CommandView, evidence: Seq<char>) -> CommandView {
    match c {
        CommandView::Join { username, public_key, timestamp, salt, .. } => CommandView::Join {
            username,
            public_key,
            timestamp,
            salt,
            evidence,
        },
        CommandView::Leave { username, public_key, timestamp, salt, .. } => CommandView::Leave {
            username,
            public_key,
            timestamp,
            salt,
            evidence,
        },
        CommandView::Message { username, public_key, timestamp, content, tags, salt, .. } =>
            CommandView::Message { username, public_key, timestamp, content, tags, salt, evidence },
    }
}

impl NetCommand {
    /// The same command with `evidence` as its evidence field.
    pub fn with_evidence(self, evidence: String) -> (res: NetCommand)
        ensures
            res@ == replace_evidence(self@, evidence@),
    {
        match self {
            NetCommand::Join { username, public_key, timestamp, salt, .. } => NetCommand::Join {
                username,
                public_key,
                timestamp,
                salt,
                evidence,
            },
            NetCommand::Leave { username, public_key, timestamp, salt, .. } => NetCommand::Leave {
                username,
                public_key,
                timestamp,
                salt,
                evidence,
            },
            NetCommand::Message { username, public_key, timestamp, content, tags, salt, .. } =>
                NetCommand::Message { username, public_key, timestamp, content, tags, salt, evidence },
        }
    }

    /// The command's public key.
    pub fn public_key(&self) -> (res: &[u8; 32])
        ensures
            res@ == command_key(self@),
    {
        match self {
            NetCommand::Join { public_key, .. } => public_key,
            NetCommand::Leave { public_key, .. } => public_key,
            NetCommand::Message { public_key, .. } => public_key,
        }
    }

    /// The command's timestamp.
    pub fn timestamp(&self) -> (res: u64)
        ensures
            res == command_timestamp(self@),
    {
        match self {
            NetCommand::Join { timestamp, .. } => *timestamp,
            NetCommand::Leave { timestamp, .. } => *timestamp,
            NetCommand::Message { timestamp, .. } => *timestamp,
        }
    }

    /// The command's salt.
    pub fn salt(&self) -> (res: &String)
        ensures
            res@ == command_salt(self@),
    {
        match self {
            NetCommand::Join { salt, .. } => salt,
            NetCommand::Leave { salt, .. } => salt,
            NetCommand::Message { salt, .. } => salt,
        }
    }

    /// The command's text up to its evidence field, which is what the evidence signs.
    pub fn signed_text(&self) -> (res: String)
        ensures
            res@ == signed_text(self@),
    {
        let mut res = String::new();
        let ghost empty = Seq::<Seq<char>>::empty();
        match self {
            NetCommand::Join { username, public_key, timestamp, salt, .. } => {
                res.append("JOIN");
                push_char(&mut res, '\0');
                proof {
                    reveal_strlit("JOIN");
                    assert("JOIN"@ =~= join_word());
                    lemma_framed_push(empty, join_word());
                    assert(command_fields(self@).take(1) =~= empty.push(join_word()));
                }
                self.push_common(&mut res, username, public_key, *timestamp);
                push_field(&mut res, salt.as_str());
                proof {
                    let f = command_fields(self@);
                    lemma_framed_push(f.take(4), f[4]);
                    assert(f.take(5) == f.take(4).push(f[4]));
                    assert(f.take(5) == f.drop_last());
                }
            },
            NetCommand::Leave { username, public_key, timestamp, salt, .. } => {
                res.append("LEAVE");
                push_char(&mut res, '\0');
                proof {
                    reveal_strlit("LEAVE");
                    assert("LEAVE"@ =~= leave_word());
                    lemma_framed_push(empty, leave_word());
                    assert(command_fields(self@).take(1) =~= empty.push(leave_word()));
                }
                self.push_common(&mut res, username, public_key, *timestamp);
                push_field(&mut res, salt.as_str());
                proof {
                    let f = command_fields(self@);
                    lemma_framed_push(f.take(4), f[4]);
                    assert(f.take(5) == f.take(4).push(f[4]));
                    assert(f.take(5) == f.drop_last());
                }
            },
            NetCommand::Message { username, public_key, timestamp, content, tags, salt, .. } => {
                res.append("MSG");
                push_char(&mut res, '\0');
                proof {
                    reveal_strlit("MSG");
                    assert("MSG"@ =~= msg_word());
                    lemma_framed_push(empty, msg_word());
                    assert(command_fields(self@).take(1) =~= empty.push(msg_word()));
                }
                self.push_common(&mut res, username, public_key, *timestamp);
                push_field(&mut res, content.as_str());
                let tag_string = tag_to_string(tags.clone());
                push_field(&mut res, tag_string.as_str());
                push_field(&mut res, salt.as_str());
                proof {
                    let f = command_fields(self@);
                    lemma_framed_push(f.take(4), f[4]);
                    lemma_framed_push(f.take(5), f[5]);
                    lemma_framed_push(f.take(6), f[6]);
                    assert(f.take(5) == f.take(4).push(f[4]));
                    assert(f.take(6) == f.take(5).push(f[5]));
                    assert(f.take(7) == f.take(6).push(f[6]));
                    assert(f.take(7) == f.drop_last());
                }
            },
        }
        res
    }

    /// The command's evidence field.
    pub fn evidence(&self) -> (res: &String)
        ensures
            res@ == command_evidence(self@),
    {
        match self {
            NetCommand::Join { evidence, .. } => evidence,
            NetCommand::Leave { evidence, .. } => evidence,
            NetCommand::Message { evidence, .. } => evidence,
        }
    }

    /// The command's text on the wire.
    pub fn to_text(&self) -> (res: String)
        ensures
            res@ == command_text(self@),
    {
        let mut res = self.signed_text();
        push_field(&mut res, self.evidence().as_str());
        proof {
            let f = command_fields(self@);
            assert(f.last() == command_evidence(self@));
        }
        res
    }

    /// Appends the username, key and timestamp fields, which every command has after its name.
    fn push_common(&self, res: &mut String, username: &String, public_key: &[u8; 32], timestamp: u64)
        requires
            old(res)@ == framed(command_fields(self@).take(1)),
            username@ == command_fields(self@)[1],
            key_text(public_key@) == command_fields(self@)[2],
            decimal(timestamp as nat) == command_fields(self@)[3],
        ensures
            final(res)@ == framed(command_fields(self@).take(4)),
    {
        let ghost f = command_fields(self@);
        push_field(res, username.as_str());
        let key = key_to_string(public_key.as_slice());
        push_field(res, key.as_str());
        push_decimal(res, timestamp);
        push_char(res, '\0');
        proof {
            lemma_framed_push(f.take(1), f[1]);
            lemma_framed_push(f.take(2), f[2]);
            lemma_framed_push(f.take(3), f[3]);
            assert(f.take(2) == f.take(1).push(f[1]));
            assert(f.take(3) == f.take(2).push(f[2]));
            assert(f.take(4) == f.take(3).push(f[3]));
        }
    }

    /// The command's bytes on the wire: the UTF-8 encoding of its text.
    pub fn to_buf(&self) -> (res: Vec<u8>)
        ensures
            res@ == vstd::utf8::encode_utf8(command_text(self@)),
    {
        let text = self.to_text();
        text.as_str().as_bytes_vec()
    }
}


/// The Join or Leave command that six wire fields stand for.
pub open spec fn short_command(items: Seq<Seq<char>>) -> CommandView {
    if items[0] == join_word() {
        CommandView::Join {
            username: items[1],
            public_key: parse_key(items[2])->0,
            timestamp: parse_unsigned(items[3], u64::MAX as nat)->0 as u64,
            salt: items[4],
            evidence: items[5],
        }
    } else {
        CommandView::Leave {
            username: items[1],
            public_key: parse_key(items[2])->0,
            timestamp: parse_unsigned(items[3], u64::MAX as nat)->0 as u64,
            salt: items[4],
            evidence: items[5],
        }
    }
}

/// The Message command that eight wire fields stand for; its tags are the pieces
/// of the tag field between spaces.
pub open spec fn message_command(items: Seq<Seq<char>>) -> CommandView {
    CommandView::Message {
        username: items[1],
        public_key: parse_key(items[2])->0,
        timestamp: parse_unsigned(items[3], u64::MAX as nat)->0 as u64,
        content: items[4],
        tags: split_on(items[5], ' '),
        salt: items[6],
        evidence: items[7],
    }
}

/// Whether the key and timestamp fields of a command read.
pub open spec fn key_and_time_read(items: Seq<Seq<char>>) -> bool {
    parse_key(items[2]) is Some && parse_unsigned(items[3], u64::MAX as nat) is Some
}

/// The commands read from a sequence of wire fields, and the fields of an incomplete command
/// at the end that are kept for later. An empty field is skipped; so is the first field of a
/// command whose key or timestamp does not read, and any field that names no command.
pub open spec fn parse_items(items: Seq<Seq<char>>) -> (Seq<CommandView>, Seq<Seq<char>>)
    decreases items.len(),
{
    if items.len() == 0 {
        (Seq::empty(), Seq::empty())
    } else if items[0].len() == 0 {
        parse_items(items.drop_first())
    } else if items[0] == join_word() || items[0] == leave_word() {
        if items.len() < 6 {
            (Seq::empty(), items)
        } else if key_and_time_read(items) {
            let rest = parse_items(items.subrange(6, items.len() as int));
            (seq![short_command(items)] + rest.0, rest.1)
        } else {
            parse_items(items.drop_first())
        }
    } else if items[0] == msg_word() {
        if items.len() < 8 {
            (Seq::empty(), items)
        } else if key_and_time_read(items) {
            let rest = parse_items(items.subrange(8, items.len() as int));
            (seq![message_command(items)] + rest.0, rest.1)
        } else {
            parse_items(items.drop_first())
        }
    } else {
        parse_items(items.drop_first())
    }
}

/// The views of a sequence of character vectors.
pub open spec fn pieces_view(v: Seq<Vec<char>>) -> Seq<Seq<char>> {
    v.map_values(|p: Vec<char>| p@)
}

/// Whether two character sequences are equal.
fn chars_equal(a: &[char], b: &[char]) -> (res: bool)
    ensures
        res == (a@ == b@),
{
    if a.len() != b.len() {
        return false;
    }
    let mut i: usize = 0;
    while i < a.len()
        invariant
            i <= a@.len() == b@.len(),
            a@.take(i as int) == b@.take(i as int),
        decreases a@.len() - i,
    {
        if a[i] != b[i] {
            return false;
        }
        i = i + 1;
        assert(a@.take(i as int) == a@.take(i - 1).push(a@[i - 1]));
        assert(b@.take(i as int) == b@.take(i - 1).push(b@[i - 1]));
    }
    assert(a@.take(a@.len() as int) == a@);
    assert(b@.take(b@.len() as int) == b@);
    true
}

/// Strings holding the given character vectors.
fn strings_of(v: &Vec<Vec<char>>) -> (res: Vec<String>)
    ensures
        strings_view(res@) == pieces_view(v@),
{
    let mut res: Vec<String> = Vec::new();
    let mut i: usize = 0;
    while i < v.len()
        invariant
            i <= v@.len(),
            strings_view(res@) == pieces_view(v@).take(i as int),
        decreases v@.len() - i,
    {
        let s = string_of(v[i].as_slice());
        let ghost before = res@;
        res.push(s);
        assert(strings_view(before.push(s)) =~= strings_view(before).push(s@));
        assert(pieces_view(v@).take(i + 1) =~= pieces_view(v@).take(i as int).push(v@[i as int]@));
        i = i + 1;
    }
    assert(pieces_view(v@).take(v@.len() as int) == pieces_view(v@));
    res
}

/// Reads the commands out of a sequence of wire fields; the fields of an incomplete command at
/// the end are appended to `buffer`.
fn parse_fields(items: &Vec<Vec<char>>, buffer: &mut Vec<String>) -> (res: Vec<NetCommand>)
    ensures
        commands_view(res@) == parse_items(pieces_view(items@)).0,
        strings_view(final(buffer)@) == strings_view(old(buffer)@) + parse_items(
            pieces_view(items@),
        ).1,
{
    let ghost iv = pieces_view(items@);
    let join_name: [char; 4] = ['J', 'O', 'I', 'N'];
    let leave_name: [char; 5] = ['L', 'E', 'A', 'V', 'E'];
    let msg_name: [char; 3] = ['M', 'S', 'G'];
    assert(join_name@ == join_word());
    assert(leave_name@ == leave_word());
    assert(msg_name@ == msg_word());
    let mut rettable: Vec<NetCommand> = Vec::new();
    let mut pos: usize = 0;
    assert(iv.subrange(0, iv.len() as int) == iv);
    while pos < items.len()
        invariant
            pos <= items@.len() == iv.len(),
            iv == pieces_view(items@),
            join_name@ == join_word(),
            leave_name@ == leave_word(),
            msg_name@ == msg_word(),
            buffer@ == old(buffer)@,
            parse_items(iv).0 == commands_view(rettable@) + parse_items(
                iv.subrange(pos as int, iv.len() as int),
            ).0,
            parse_items(iv).1 == parse_items(iv.subrange(pos as int, iv.len() as int)).1,
        decreases items@.len() - pos,
    {
        let ghost rest = iv.subrange(pos as int, iv.len() as int);
        let ghost done = commands_view(rettable@);
        assert(rest[0] == items@[pos as int]@);
        assert(rest.drop_first() == iv.subrange(pos + 1, iv.len() as int));
        let name = &items[pos];
        if name.len() == 0 {
            pos = pos + 1;
        } else {
            let is_join = chars_equal(name.as_slice(), join_name.as_slice());
            let is_leave = chars_equal(name.as_slice(), leave_name.as_slice());
            let is_msg = chars_equal(name.as_slice(), msg_name.as_slice());
            let needed: usize = if is_join || is_leave {
                6
            } else if is_msg {
                8
            } else {
                0
            };
            if needed == 0 {
                pos = pos + 1;
            } else if items.len() - pos < needed {
                let mut k: usize = pos;
                while k < items.len()
                    invariant
                        pos <= k <= items@.len() == iv.len(),
                        iv == pieces_view(items@),
                        strings_view(buffer@) == strings_view(old(buffer)@) + iv.subrange(
                            pos as int,
                            k as int,
                        ),
                    decreases items@.len() - k,
                {
                    let s = string_of(items[k].as_slice());
                    let ghost before = buffer@;
                    buffer.push(s);
                    assert(strings_view(before.push(s)) =~= strings_view(before).push(s@));
                    assert(iv.subrange(pos as int, k + 1) =~= iv.subrange(pos as int, k as int).push(
                        iv[k as int],
                    ));
                    k = k + 1;
                }
                assert(parse_items(rest) == (Seq::<CommandView>::empty(), rest));
                assert(commands_view(rettable@) + Seq::<CommandView>::empty() == commands_view(
                    rettable@,
                ));
                return rettable;
            } else {
                assert(rest[2] == items@[pos + 2]@);
                assert(rest[3] == items@[pos + 3]@);
                let f_public_key = key_from_chars(items[pos + 2].as_slice());
                let f_timestamp = parse_u64(items[pos + 3].as_slice());
                match (f_public_key, f_timestamp) {
                    (Ok(public_key), Some(timestamp)) => {
                        assert(rest[1] == items@[pos + 1]@);
                        assert(rest[4] == items@[pos + 4]@);
                        assert(rest[5] == items@[pos + 5]@);
                        let username = string_of(items[pos + 1].as_slice());
                        let command = if is_msg {
                            assert(rest[6] == items@[pos + 6]@);
                            assert(rest[7] == items@[pos + 7]@);
                            let content = string_of(items[pos + 4].as_slice());
                            let tag_pieces = split_chars(items[pos + 5].as_slice(), ' ');
                            let tags = strings_of(&tag_pieces);
                            let salt = string_of(items[pos + 6].as_slice());
                            let evidence = string_of(items[pos + 7].as_slice());
                            NetCommand::Message {
                                username,
                                public_key,
                                timestamp,
                                content,
                                tags,
                                salt,
                                evidence,
                            }
                        } else {
                            let salt = string_of(items[pos + 4].as_slice());
                            let evidence = string_of(items[pos + 5].as_slice());
                            if is_join {
                                NetCommand::Join { username, public_key, timestamp, salt, evidence }
                            } else {
                                NetCommand::Leave { username, public_key, timestamp, salt, evidence }
                            }
                        };
                        proof {
                            if is_msg {
                                assert(command@ == message_command(rest));
                            } else {
                                assert(command@ == short_command(rest));
                            }
                        }
                        let ghost before = rettable@;
                        rettable.push(command);
                        assert(commands_view(before.push(command)) =~= commands_view(before).push(
                            command@,
                        ));
                        assert(rest.subrange(needed as int, rest.len() as int) =~= iv.subrange(
                            pos + needed,
                            iv.len() as int,
                        ));
                        pos = pos + needed;
                    },
                    _ => {
                        pos = pos + 1;
                    },
                }
            }
        }
    }
    assert(iv.subrange(pos as int, iv.len() as int) =~= Seq::<Seq<char>>::empty());
    assert(commands_view(rettable@) + Seq::<CommandView>::empty() == commands_view(rettable@));
    rettable
}


/// The wire fields of a read: the text read is cut at null characters, and where earlier reads
/// left a buffer, its fields come first and its last field (the part of a field that the
/// earlier read cut off) is joined with the first piece of the text.
pub open spec fn read_fields(buffer: Seq<Seq<char>>, text: Seq<char>) -> Seq<Seq<char>> {
    let pieces = split_on(text, '\0');
    if buffer.len() == 0 {
        pieces
    } else {
        buffer.drop_last().push(buffer.last() + pieces[0]) + pieces.drop_first()
    }
}

/// What reading a stream's text gives: the commands read from the fields that a null character
/// ended, and the buffer kept for the next read, which holds the fields of an incomplete
/// command at the end and then the text after the last null character (nothing where both are
/// empty).
pub open spec fn text_read(buffer: Seq<Seq<char>>, text: Seq<char>) -> (
    Seq<CommandView>,
    Seq<Seq<char>>,
) {
    let fields = read_fields(buffer, text);
    let r = parse_items(fields.drop_last());
    let tail = fields.last();
    (r.0, if r.1.len() == 0 && tail.len() == 0 {
        Seq::empty()
    } else {
        r.1.push(tail)
    })
}

/// Reading fields that come in two parts: what the first part leaves unread is read again in
/// front of the second.
proof fn lemma_parse_items_append(a: Seq<Seq<char>>, b: Seq<Seq<char>>)
    ensures
        parse_items(a + b) == (
            parse_items(a).0 + parse_items(parse_items(a).1 + b).0,
            parse_items(parse_items(a).1 + b).1,
        ),
    decreases a.len(),
{
    let ab = a + b;
    if a.len() == 0 {
        assert(ab == b);
        assert(Seq::<Seq<char>>::empty() + b == b);
        assert(Seq::<CommandView>::empty() + parse_items(b).0 == parse_items(b).0);
    } else {
        assert(ab[0] == a[0]);
        assert(ab.drop_first() == a.drop_first() + b);
        let n: int = if a[0] == msg_word() {
            8
        } else {
            6
        };
        if a[0].len() == 0 {
            lemma_parse_items_append(a.drop_first(), b);
        } else if (a[0] == join_word() || a[0] == leave_word() || a[0] == msg_word()) && a.len()
            >= n {
            assert(ab[2] == a[2] && ab[3] == a[3]);
            if key_and_time_read(a) {
                assert(ab.subrange(n, ab.len() as int) == a.subrange(n, a.len() as int) + b);
                assert forall|i: int| 0 <= i < n implies ab[i] == a[i] by {}
                if a[0] == msg_word() {
                    assert(message_command(ab) == message_command(a));
                } else {
                    assert(short_command(ab) == short_command(a));
                }
                lemma_parse_items_append(a.subrange(n, a.len() as int), b);
                let head = if a[0] == msg_word() {
                    message_command(a)
                } else {
                    short_command(a)
                };
                let r = parse_items(a.subrange(n, a.len() as int));
                assert(seq![head] + (r.0 + parse_items(r.1 + b).0) == seq![head] + r.0
                    + parse_items(r.1 + b).0);
            } else {
                lemma_parse_items_append(a.drop_first(), b);
            }
        } else if a[0] == join_word() || a[0] == leave_word() || a[0] == msg_word() {
            assert(Seq::<CommandView>::empty() + parse_items(a + b).0 == parse_items(a + b).0);
        } else {
            lemma_parse_items_append(a.drop_first(), b);
        }
    }
}

/// The fields of a read of joined text: the fields of a read of the first text, whose last
/// field is joined with the first piece of the second text, and then its other pieces.
proof fn lemma_read_fields_concat(buffer: Seq<Seq<char>>, t1: Seq<char>, t2: Seq<char>)
    ensures
        ({
            let f1 = read_fields(buffer, t1);
            let s2 = split_on(t2, '\0');
            read_fields(buffer, t1 + t2) == f1.drop_last().push(f1.last() + s2[0])
                + s2.drop_first()
        }),
{
    let s1 = split_on(t1, '\0');
    let s2 = split_on(t2, '\0');
    lemma_split_on_nonempty(t1, '\0');
    lemma_split_on_nonempty(t2, '\0');
    lemma_split_on_concat(t1, t2, '\0');
    let whole = split_on(t1 + t2, '\0');
    let f1 = read_fields(buffer, t1);
    if buffer.len() == 0 {
    } else if s1.len() == 1 {
        assert(whole[0] == s1[0] + s2[0]);
        assert(whole.drop_first() =~= s2.drop_first());
        assert(s1.drop_first() =~= Seq::<Seq<char>>::empty());
        assert(f1 =~= buffer.drop_last().push(buffer.last() + s1[0]));
        assert(buffer.last() + (s1[0] + s2[0]) =~= buffer.last() + s1[0] + s2[0]);
        assert(read_fields(buffer, t1 + t2) =~= f1.drop_last().push(f1.last() + s2[0])
            + s2.drop_first());
    } else {
        assert(whole[0] == s1[0]);
        assert(whole.drop_first() =~= s1.drop_first().drop_last().push(s1.last() + s2[0])
            + s2.drop_first());
        assert(read_fields(buffer, t1 + t2) =~= f1.drop_last().push(f1.last() + s2[0])
            + s2.drop_first());
    }
}

/// Reading a stream's text in two pieces gives what reading it at once gives: the commands of
/// the first read and then those of the second, and the same buffer kept at the end. A command
/// cut across reads is read once, whole.
pub proof fn lemma_read_in_two(buffer: Seq<Seq<char>>, t1: Seq<char>, t2: Seq<char>)
    ensures
        ({
            let first = text_read(buffer, t1);
            let second = text_read(first.1, t2);
            text_read(buffer, t1 + t2) == (first.0 + second.0, second.1)
        }),
{
    let f1 = read_fields(buffer, t1);
    let s2 = split_on(t2, '\0');
    lemma_split_on_nonempty(t2, '\0');
    lemma_read_fields_concat(buffer, t1, t2);
    let r1 = parse_items(f1.drop_last());
    let tail1 = f1.last();
    let kept = text_read(buffer, t1).1;
    let x = seq![tail1 + s2[0]] + s2.drop_first();
    assert(read_fields(buffer, t1 + t2) =~= f1.drop_last() + x);
    assert(read_fields(kept, t2) =~= r1.1 + x) by {
        if kept.len() == 0 {
            assert(r1.1 =~= Seq::<Seq<char>>::empty());
            assert(tail1 =~= Seq::<char>::empty());
            assert(tail1 + s2[0] =~= s2[0]);
            assert(x =~= s2);
        } else {
            assert(kept =~= r1.1.push(tail1));
            assert(kept.drop_last() =~= r1.1);
        }
    }
    assert((f1.drop_last() + x).drop_last() =~= f1.drop_last() + x.drop_last());
    assert((r1.1 + x).drop_last() =~= r1.1 + x.drop_last());
    assert((f1.drop_last() + x).last() == x.last());
    assert((r1.1 + x).last() == x.last());
    lemma_parse_items_append(f1.drop_last(), x.drop_last());
}

/// What reading a stream's bytes gives: as `text_read` on their text when they are UTF-8,
/// and nothing, with the buffer unchanged, when they are not.
pub open spec fn stream_read(buffer: Seq<Seq<char>>, data: Seq<u8>) -> (
    Seq<CommandView>,
    Seq<Seq<char>>,
) {
    if vstd::utf8::valid_utf8(data) {
        text_read(buffer, vstd::utf8::decode_utf8(data))
    } else {
        (Seq::empty(), buffer)
    }
}

/// Reads the commands out of the text read from a stream, with what earlier reads kept in
/// `buffer` in front of it (see `text_read`); `buffer` is left holding what this read keeps.
pub fn parse_stream_text(buffer: &mut Vec<String>, content: &str) -> (res: Vec<NetCommand>)
    ensures
        commands_view(res@) == text_read(strings_view(old(buffer)@), content@).0,
        strings_view(final(buffer)@) == text_read(strings_view(old(buffer)@), content@).1,
{
    let ghost bv = strings_view(buffer@);
    let content_chars = chars_of(content);
    let pieces = split_chars(content_chars.as_slice(), '\0');
    let ghost pv = split_on(content@, '\0');
    proof {
        lemma_split_on_nonempty(content@, '\0');
        assert(pieces_view(pieces@) == pv);
        assert(pieces@.len() == pv.len());
        assert(pieces@[0]@ == pv[0]);
    }
    let mut items: Vec<Vec<char>> = Vec::new();
    let mut start: usize = 0;
    if buffer.len() > 0 {
        let last = buffer.len() - 1;
        let mut i: usize = 0;
        while i < last
            invariant
                i <= last,
                last + 1 == buffer@.len(),
                bv == strings_view(buffer@),
                pieces_view(items@) == bv.take(i as int),
            decreases last - i,
        {
            let piece = chars_of(buffer[i].as_str());
            let ghost before = items@;
            items.push(piece);
            assert(pieces_view(before.push(piece)) =~= pieces_view(before).push(piece@));
            assert(bv.take(i + 1) =~= bv.take(i as int).push(bv[i as int]));
            i = i + 1;
        }
        let mut joined = chars_of(buffer[last].as_str());
        let mut k: usize = 0;
        while k < pieces[0].len()
            invariant
                pieces@.len() == pv.len() >= 1,
                pieces@[0]@ == pv[0],
                k <= pv[0].len(),
                joined@ == bv.last() + pv[0].take(k as int),
                bv == strings_view(buffer@),
                last + 1 == buffer@.len(),
            decreases pv[0].len() - k,
        {
            joined.push(pieces[0][k]);
            assert(pv[0].take(k + 1) =~= pv[0].take(k as int).push(pv[0][k as int]));
            k = k + 1;
        }
        assert(pv[0].take(pv[0].len() as int) == pv[0]);
        let ghost before = items@;
        items.push(joined);
        assert(pieces_view(before.push(joined)) =~= pieces_view(before).push(joined@));
        assert(bv.take(last as int) == bv.drop_last());
        start = 1;
    }
    let ghost front = pieces_view(items@);
    let mut j: usize = start;
    while j < pieces.len()
        invariant
            start <= j <= pieces@.len(),
            pieces_view(pieces@) == pv,
            pieces_view(items@) == front + pv.subrange(start as int, j as int),
        decreases pieces@.len() - j,
    {
        let piece = pieces[j].clone();
        assert(piece@ == pv[j as int]);
        let ghost before = items@;
        items.push(piece);
        assert(pieces_view(before.push(piece)) =~= pieces_view(before).push(piece@));
        assert(pv.subrange(start as int, j + 1) =~= pv.subrange(start as int, j as int).push(
            pv[j as int],
        ));
        j = j + 1;
    }
    proof {
        if bv.len() == 0 {
            assert(front + pv.subrange(0, pv.len() as int) =~= pv);
        } else {
            assert(pv.subrange(1, pv.len() as int) =~= pv.drop_first());
        }
        assert(pieces_view(items@) == read_fields(bv, content@));
    }
    let ghost fields = pieces_view(items@);
    let tail = match items.pop() {
        Some(t) => t,
        None => Vec::new(),
    };
    assert(pieces_view(items@) =~= fields.drop_last());
    buffer.clear();
    let res = parse_fields(&items, buffer);
    assert(strings_view(buffer@) =~= parse_items(fields.drop_last()).1);
    if buffer.len() > 0 || tail.len() > 0 {
        let kept = string_of(tail.as_slice());
        let ghost before = buffer@;
        buffer.push(kept);
        assert(strings_view(before.push(kept)) =~= strings_view(before).push(kept@));
    }
    res
}

/// Calls `std::str::from_utf8`. Trusted: it succeeds exactly on valid UTF-8, and then the text
/// is what the bytes encode.
#[verifier::external_body]
fn utf8_text(bytes: &[u8]) -> (res: Option<&str>)
    ensures
        match res {
            Some(s) => vstd::utf8::valid_utf8(bytes@) && s@ == vstd::utf8::decode_utf8(bytes@),
            None => !vstd::utf8::valid_utf8(bytes@),
        },
{
    std::str::from_utf8(bytes).ok()
}

/// Reads the commands out of the bytes read from a stream (see `parse_stream_text`); bytes
/// that are not UTF-8 give no command and leave `buffer` as it was.
pub fn parse_stream_data(buffer: &mut Vec<String>, data: &[u8]) -> (res: Vec<NetCommand>)
    ensures
        commands_view(res@) == stream_read(strings_view(old(buffer)@), data@).0,
        strings_view(final(buffer)@) == stream_read(strings_view(old(buffer)@), data@).1,
{
    match utf8_text(data) {
        Some(content) => parse_stream_text(buffer, content),
        None => Vec::new(),
    }
}


/// A command's wire text is the text its evidence signs, then the evidence and a null
/// character.
pub proof fn lemma_text_is_signed_text_and_evidence(c: CommandView)
    ensures
        command_text(c) == signed_text(c) + command_evidence(c).push('\0'),
{
    assert(command_fields(c).last() == command_evidence(c));
}

/// Whether a command's text fields hold no null character, its key is 32 bytes and,
/// for a message, its tags read back from their text (see `plain_tags`) and hold no
/// null character: the commands that the wire format carries unchanged.
pub open spec fn plain_command(c: CommandView) -> bool {
    match c {
        CommandView::Join { username, public_key, salt, evidence, .. } => {
            &&& public_key.len() == 32
            &&& free_of(username, '\0')
            &&& free_of(salt, '\0')
            &&& free_of(evidence, '\0')
        },
        CommandView::Leave { username, public_key, salt, evidence, .. } => {
            &&& public_key.len() == 32
            &&& free_of(username, '\0')
            &&& free_of(salt, '\0')
            &&& free_of(evidence, '\0')
        },
        CommandView::Message { username, public_key, content, tags, salt, evidence, .. } => {
            &&& public_key.len() == 32
            &&& free_of(username, '\0')
            &&& free_of(content, '\0')
            &&& plain_tags(tags)
            &&& all_free_of(tags, '\0')
            &&& free_of(salt, '\0')
            &&& free_of(evidence, '\0')
        },
    }
}

/// The texts of several commands, one after another.
pub open spec fn commands_text(cs: Seq<CommandView>) -> Seq<char>
    decreases cs.len(),
{
    if cs.len() == 0 {
        Seq::<char>::empty()
    } else {
        command_text(cs[0]) + commands_text(cs.drop_first())
    }
}

/// The wire fields of several commands, one after another.
pub open spec fn commands_fields(cs: Seq<CommandView>) -> Seq<Seq<char>>
    decreases cs.len(),
{
    if cs.len() == 0 {
        Seq::<Seq<char>>::empty()
    } else {
        command_fields(cs[0]) + commands_fields(cs.drop_first())
    }
}

proof fn lemma_framed_join(fields: Seq<Seq<char>>)
    ensures
        framed(fields) == join_with(fields.push(Seq::<char>::empty()), '\0'),
    decreases fields.len(),
{
    let e = Seq::<char>::empty();
    if fields.len() == 0 {
        assert(fields.push(e) == seq![e]);
    } else {
        let init = fields.drop_last();
        lemma_framed_join(init);
        assert(fields.push(e).drop_last() == fields);
        assert(fields.push(e).last() == e);
        if fields.len() == 1 {
            assert(fields == seq![fields[0]]);
            assert(framed(init) == e);
            assert(e + fields.last().push('\0') == fields[0].push('\0'));
            assert(join_with(fields, '\0') == fields[0]);
        } else {
            assert(init.push(e).drop_last() == init);
            assert(join_with(init.push(e), '\0') == join_with(init, '\0').push('\0') + e);
            assert(join_with(init, '\0').push('\0') + e == join_with(init, '\0').push('\0'));
            assert(join_with(fields, '\0') == join_with(init, '\0').push('\0') + fields.last());
        }
        assert(join_with(fields.push(e), '\0') == join_with(fields, '\0').push('\0') + e);
        assert(join_with(fields, '\0').push('\0') + e == join_with(fields, '\0').push('\0'));
    }
}

proof fn lemma_framed_concat(a: Seq<Seq<char>>, b: Seq<Seq<char>>)
    ensures
        framed(a + b) == framed(a) + framed(b),
    decreases b.len(),
{
    if b.len() == 0 {
        assert(a + b == a);
        assert(framed(a) + Seq::<char>::empty() == framed(a));
    } else {
        lemma_framed_concat(a, b.drop_last());
        assert((a + b).drop_last() == a + b.drop_last());
        assert((a + b).last() == b.last());
    }
}

proof fn lemma_commands_text_fields(cs: Seq<CommandView>)
    ensures
        commands_text(cs) == framed(commands_fields(cs)),
    decreases cs.len(),
{
    if cs.len() > 0 {
        lemma_commands_text_fields(cs.drop_first());
        lemma_framed_concat(command_fields(cs[0]), commands_fields(cs.drop_first()));
    }
}

proof fn lemma_fields_free(c: CommandView)
    requires
        plain_command(c),
    ensures
        all_free_of(command_fields(c), '\0'),
{
    let f = command_fields(c);
    match c {
        CommandView::Join { public_key, timestamp, .. } => {
            lemma_key_text_free_of(public_key, '\0');
            lemma_decimal_free_of(timestamp as nat, '\0');
        },
        CommandView::Leave { public_key, timestamp, .. } => {
            lemma_key_text_free_of(public_key, '\0');
            lemma_decimal_free_of(timestamp as nat, '\0');
        },
        CommandView::Message { public_key, timestamp, tags, .. } => {
            lemma_key_text_free_of(public_key, '\0');
            lemma_decimal_free_of(timestamp as nat, '\0');
            lemma_tag_roundtrip(tags);
            crate::text::lemma_join_free_of(tags, ' ', '\0');
        },
    }
    assert forall|i: int| 0 <= i < f.len() implies crate::text::free_of(#[trigger] f[i], '\0') by {
        if i == 0 {
            assert(f[0] == join_word() || f[0] == leave_word() || f[0] == msg_word());
        }
    }
}

proof fn lemma_commands_fields_free(cs: Seq<CommandView>)
    requires
        forall|i: int| 0 <= i < cs.len() ==> plain_command(#[trigger] cs[i]),
    ensures
        all_free_of(commands_fields(cs), '\0'),
    decreases cs.len(),
{
    if cs.len() > 0 {
        assert(plain_command(cs[0]));
        lemma_fields_free(cs[0]);
        assert forall|i: int| 0 <= i < cs.drop_first().len() implies plain_command(
            #[trigger] cs.drop_first()[i],
        ) by {
            assert(cs.drop_first()[i] == cs[i + 1]);
        }
        lemma_commands_fields_free(cs.drop_first());
        let a = command_fields(cs[0]);
        let b = commands_fields(cs.drop_first());
        assert forall|i: int| 0 <= i < (a + b).len() implies crate::text::free_of(
            #[trigger] (a + b)[i],
            '\0',
        ) by {
            if i < a.len() {
                assert((a + b)[i] == a[i]);
            } else {
                assert((a + b)[i] == b[i - a.len()]);
            }
        }
    }
}

/// A plain command's fields are read as that command, and reading goes on after them.
proof fn lemma_parse_one(c: CommandView, rest: Seq<Seq<char>>)
    requires
        plain_command(c),
    ensures
        parse_items(command_fields(c) + rest) == (
            seq![c] + parse_items(rest).0,
            parse_items(rest).1,
        ),
{
    let f = command_fields(c);
    let items = f + rest;
    let n = f.len() as int;
    assert(items.subrange(n, items.len() as int) == rest);
    assert(items[0] == f[0]);
    assert(items[1] == f[1]);
    assert(items[2] == f[2]);
    assert(items[3] == f[3]);
    assert(items[4] == f[4]);
    assert(items[5] == f[5]);
    assert(join_word() != leave_word());
    assert(join_word() != msg_word());
    assert(leave_word() != msg_word());
    match c {
        CommandView::Join { public_key, timestamp, .. } => {
            lemma_key_roundtrip(public_key);
            lemma_parse_decimal(timestamp as nat, u64::MAX as nat);
            assert(items[0].len() == 4);
            assert(short_command(items) == c);
        },
        CommandView::Leave { public_key, timestamp, .. } => {
            lemma_key_roundtrip(public_key);
            lemma_parse_decimal(timestamp as nat, u64::MAX as nat);
            assert(items[0].len() == 5);
            assert(short_command(items) == c);
        },
        CommandView::Message { public_key, timestamp, tags, .. } => {
            lemma_key_roundtrip(public_key);
            lemma_parse_decimal(timestamp as nat, u64::MAX as nat);
            lemma_tag_roundtrip(tags);
            assert(items[6] == f[6]);
            assert(items[7] == f[7]);
            assert(items[0].len() == 3);
            assert(message_command(items) == c);
        },
    }
}

proof fn lemma_parse_fields(cs: Seq<CommandView>)
    requires
        forall|i: int| 0 <= i < cs.len() ==> plain_command(#[trigger] cs[i]),
    ensures
        parse_items(commands_fields(cs)) == (cs, Seq::<Seq<char>>::empty()),
    decreases cs.len(),
{
    if cs.len() == 0 {
        assert(commands_fields(cs) == Seq::<Seq<char>>::empty());
        assert(cs == Seq::<CommandView>::empty());
    } else {
        let tail = cs.drop_first();
        assert forall|i: int| 0 <= i < tail.len() implies plain_command(#[trigger] tail[i]) by {
            assert(tail[i] == cs[i + 1]);
        }
        lemma_parse_fields(tail);
        assert(plain_command(cs[0]));
        lemma_parse_one(cs[0], commands_fields(tail));
        assert(seq![cs[0]] + tail == cs);
    }
}

/// Reading the text of plain commands, written one after another, with an empty buffer gives
/// back exactly those commands and keeps nothing for later.
pub proof fn lemma_text_roundtrip(cs: Seq<CommandView>)
    requires
        forall|i: int| 0 <= i < cs.len() ==> plain_command(#[trigger] cs[i]),
    ensures
        text_read(Seq::empty(), commands_text(cs)) == (cs, Seq::<Seq<char>>::empty()),
{
    let e = Seq::<char>::empty();
    let fields = commands_fields(cs);
    lemma_commands_text_fields(cs);
    lemma_framed_join(fields);
    lemma_commands_fields_free(cs);
    assert(all_free_of(fields.push(e), '\0')) by {
        assert forall|i: int| 0 <= i < fields.push(e).len() implies crate::text::free_of(
            #[trigger] fields.push(e)[i],
            '\0',
        ) by {
            if i < fields.len() {
                assert(fields.push(e)[i] == fields[i]);
            }
        }
    }
    lemma_split_join(fields.push(e), '\0');
    assert(read_fields(Seq::empty(), commands_text(cs)) == fields.push(e));
    assert(fields.push(e).drop_last() == fields);
    lemma_parse_fields(cs);
}

/// What a write gives back to a read: reading the bytes of plain commands, sent one after
/// another, with an empty buffer gives back exactly those commands and keeps nothing.
pub proof fn lemma_stream_roundtrip(cs: Seq<CommandView>)
    requires
        forall|i: int| 0 <= i < cs.len() ==> plain_command(#[trigger] cs[i]),
    ensures
        stream_read(Seq::empty(), vstd::utf8::encode_utf8(commands_text(cs))) == (
            cs,
            Seq::<Seq<char>>::empty(),
        ),
{
    vstd::utf8::encode_utf8_valid_utf8(commands_text(cs));
    vstd::utf8::encode_utf8_decode_utf8(commands_text(cs));
    lemma_text_roundtrip(cs);
}


/// Reading the bytes that `to_buf` gives for a plain command, with an empty buffer, gives back
/// that command and keeps nothing.
pub proof fn lemma_to_buf_roundtrip(c: CommandView)
    requires
        plain_command(c),
    ensures
        stream_read(Seq::empty(), vstd::utf8::encode_utf8(command_text(c))) == (
            seq![c],
            Seq::<Seq<char>>::empty(),
        ),
{
    let cs = seq![c];
    assert(cs.drop_first() == Seq::<CommandView>::empty());
    assert(commands_text(Seq::<CommandView>::empty()) == Seq::<char>::empty());
    assert(cs[0] == c);
    assert(commands_text(cs) == command_text(cs[0]) + commands_text(cs.drop_first()));
    assert(command_text(c) + Seq::<char>::empty() == command_text(c));
    lemma_stream_roundtrip(cs);
}

/// Host to client commands, as a host's first reply reads.
///
/// A READY reply's connection is the one on which it came, which the caller holds.
#[derive(Debug, PartialEq, Eq)]
pub enum HostReply {
    Redir(String),
    Ready,
    Close,
}

/// What a host's first reply says: a REDIR with its address, a READY or a CLOSE.
pub enum ReplyView {
    Redir(Seq<char>),
    Ready,
    Close,
}

impl View for HostReply {
    type V = ReplyView;

    open spec fn view(&self) -> ReplyView {
        match self {
            HostReply::Redir(addr) => ReplyView::Redir(addr@),
            HostReply::Ready => ReplyView::Ready,
            HostReply::Close => ReplyView::Close,
        }
    }
}

/// Whether `s` starts with `prefix`.
pub open spec fn starts_with(s: Seq<char>, prefix: Seq<char>) -> bool {
    prefix.len() <= s.len() && s.subrange(0, prefix.len() as int) == prefix
}

pub open spec fn redir_word() -> Seq<char> {
    seq!['R', 'E', 'D', 'I', 'R']
}

pub open spec fn ready_word() -> Seq<char> {
    seq!['R', 'E', 'A', 'D', 'Y']
}

pub open spec fn close_word() -> Seq<char> {
    seq!['C', 'L', 'O', 'S', 'E']
}

/// Whether a host's reply can be read without failing: a reply whose text starts with `REDIR`
/// must go on with a null character.
pub open spec fn host_reply_readable(data: Seq<u8>) -> bool {
    let text = vstd::utf8::decode_utf8(data);
    (data.len() > 0 && vstd::utf8::valid_utf8(data) && starts_with(text, redir_word()))
        ==> starts_with(text, redir_word().push('\0'))
}

/// Whether the characters of `s` start with those of `w`.
fn starts_with_chars(s: &[char], w: &[char]) -> (res: bool)
    ensures
        res == starts_with(s@, w@),
{
    if w.len() > s.len() {
        return false;
    }
    let mut i: usize = 0;
    while i < w.len()
        invariant
            i <= w@.len() <= s@.len(),
            s@.subrange(0, i as int) == w@.take(i as int),
        decreases w@.len() - i,
    {
        if s[i] != w[i] {
            assert(s@.subrange(0, w@.len() as int)[i as int] != w@[i as int]);
            return false;
        }
        i = i + 1;
        assert(s@.subrange(0, i as int) == s@.subrange(0, i - 1).push(s@[i - 1]));
        assert(w@.take(i as int) == w@.take(i - 1).push(w@[i - 1]));
    }
    assert(w@.take(w@.len() as int) == w@);
    true
}

/// What a host's first reply reads as: nothing when it is empty or not UTF-8; else, by how
/// its text starts, a REDIR with the address after `REDIR` and a null character, up to the
/// next null character or the end; a READY; a CLOSE; or nothing.
pub open spec fn read_reply(data: Seq<u8>) -> Option<ReplyView> {
    let text = vstd::utf8::decode_utf8(data);
    if data.len() == 0 || !vstd::utf8::valid_utf8(data) {
        None
    } else if starts_with(text, redir_word()) {
        Some(ReplyView::Redir(split_on(text.skip(6), '\0')[0]))
    } else if starts_with(text, ready_word()) {
        Some(ReplyView::Ready)
    } else if starts_with(text, close_word()) {
        Some(ReplyView::Close)
    } else {
        None
    }
}

/// Reads a host's first reply (the bytes it sent); see `read_reply`.
pub fn parse_host_reply(data: &[u8]) -> (res: Option<HostReply>)
    requires
        host_reply_readable(data@),
    ensures
        read_reply(data@) == match res {
            Some(r) => Some(r@),
            None => None::<ReplyView>,
        },
{
    if data.len() == 0 {
        return None;
    }
    let text = match utf8_text(data) {
        Some(t) => t,
        None => {
            return None;
        },
    };
    let chars = chars_of(text);
    let redir: [char; 5] = ['R', 'E', 'D', 'I', 'R'];
    let ready: [char; 5] = ['R', 'E', 'A', 'D', 'Y'];
    let close: [char; 5] = ['C', 'L', 'O', 'S', 'E'];
    assert(redir@ == redir_word());
    assert(ready@ == ready_word());
    assert(close@ == close_word());
    if starts_with_chars(chars.as_slice(), redir.as_slice()) {
        assert(starts_with(chars@, redir_word().push('\0')));
        assert(chars@.subrange(0, 6)[5] == '\0');
        let mut rest: Vec<char> = Vec::new();
        let mut k: usize = 6;
        while k < chars.len()
            invariant
                6 <= k <= chars@.len(),
                rest@ == chars@.subrange(6, k as int),
            decreases chars@.len() - k,
        {
            rest.push(chars[k]);
            k = k + 1;
            assert(rest@ == chars@.subrange(6, k as int));
        }
        assert(rest@ == chars@.skip(6));
        let pieces = split_chars(rest.as_slice(), '\0');
        proof {
            lemma_split_on_nonempty(rest@, '\0');
            assert(pieces@.map_values(|p: Vec<char>| p@)[0] == pieces@[0]@);
        }
        return Some(HostReply::Redir(string_of(pieces[0].as_slice())));
    }
    if starts_with_chars(chars.as_slice(), ready.as_slice()) {
        return Some(HostReply::Ready);
    }
    if starts_with_chars(chars.as_slice(), close.as_slice()) {
        return Some(HostReply::Close);
    }
    None
}

/// The host part and the port of an address: the text up to the first `:` and the port read
/// from the text between the first and second `:` (`u16::from_str`); `None` without a `:` or
/// with a port that does not read.
pub fn split_host_port(addr: &str) -> (res: Option<(String, u16)>)
    ensures
        ({
            let parts = split_on(addr@, ':');
            match res {
                Some((host, port)) => parts.len() >= 2 && parse_unsigned(parts[1], u16::MAX as nat)
                    == Some(port as nat) && host@ == parts[0],
                None => parts.len() < 2 || parse_unsigned(parts[1], u16::MAX as nat) is None,
            }
        }),
{
    let chars = chars_of(addr);
    let tmp = split_chars(chars.as_slice(), ':');
    assert(tmp@.map_values(|p: Vec<char>| p@) == split_on(addr@, ':'));
    if tmp.len() < 2 {
        return None;
    }
    assert(tmp@[0]@ == split_on(addr@, ':')[0]);
    assert(tmp@[1]@ == split_on(addr@, ':')[1]);
    match crate::text::parse_u16(tmp[1].as_slice()) {
        Some(port) => Some((string_of(tmp[0].as_slice()), port)),
        None => None,
    }
}

/// Whether a piece of an IPv4 address reads as one of its numbers: one to three digits, with
/// no leading zero unless it is `0` itself, of value at most 255.
pub open spec fn octet_text(p: Seq<char>) -> bool {
    &&& 1 <= p.len() <= 3
    &&& all_digits(p)
    &&& (p.len() == 1 || p[0] != '0')
    &&& digits_value(p) <= 255
}

/// The four numbers of an IPv4 address in dotted text, as `Ipv4Addr::from_str` reads it: the
/// text holds four pieces between dots, and each reads as a number; else `None`.
pub open spec fn ipv4_octets(s: Seq<char>) -> Option<Seq<u8>> {
    let parts = split_on(s, '.');
    if parts.len() == 4 && forall|i: int| 0 <= i < 4 ==> #[trigger] octet_text(parts[i]) {
        Some(Seq::new(4, |i: int| digits_value(parts[i]) as u8))
    } else {
        None
    }
}

/// Reads one number of an IPv4 address (see `octet_text`).
fn read_octet(p: &[char]) -> (res: Option<u8>)
    ensures
        match res {
            Some(v) => octet_text(p@) && v as nat == digits_value(p@),
            None => !octet_text(p@),
        },
{
    if p.len() < 1 || p.len() > 3 {
        return None;
    }
    if p.len() > 1 && p[0] == '0' {
        return None;
    }
    if p[0] == '+' {
        assert(!crate::text::is_digit(p@[0]));
        return None;
    }
    assert(crate::text::unsigned_digits(p@) == p@);
    parse_u8(p)
}

/// Reads the host part of an address as an IPv4 address (see `ipv4_octets`).
pub fn parse_ipv4(host: &str) -> (res: Option<[u8; 4]>)
    ensures
        match res {
            Some(octets) => ipv4_octets(host@) == Some(octets@),
            None => ipv4_octets(host@) is None,
        },
{
    let chars = chars_of(host);
    let parts = split_chars(chars.as_slice(), '.');
    let ghost pv = split_on(host@, '.');
    assert(pieces_view(parts@) == pv);
    if parts.len() != 4 {
        return None;
    }
    assert(pv.len() == 4);
    let mut octets: [u8; 4] = [0; 4];
    let mut i: usize = 0;
    while i < 4
        invariant
            i <= 4,
            parts@.len() == 4,
            pv.len() == 4,
            pv == split_on(host@, '.'),
            pieces_view(parts@) == pv,
            forall|k: int| 0 <= k < i ==> #[trigger] octet_text(pv[k]) && octets@[k] as nat
                == digits_value(pv[k]),
        decreases 4 - i,
    {
        assert(parts@[i as int]@ == pv[i as int]);
        match read_octet(parts[i].as_slice()) {
            Some(v) => {
                octets[i] = v;
            },
            None => {
                assert(!octet_text(pv[i as int]));
                return None;
            },
        }
        i = i + 1;
    }
    assert forall|k: int| 0 <= k < 4 implies octets@[k] == (digits_value(pv[k]) as u8) by {
        assert(octet_text(pv[k]));
    }
    assert(octets@ =~= Seq::new(4, |k: int| digits_value(pv[k]) as u8));
    Some(octets)
}

/// What a connection attempt does next after a host's reply.
#[derive(Debug, PartialEq, Eq)]
pub enum ConnectStep {
    /// The host is ready: keep the connection.
    Connected,
    /// Connect to this address instead; this is the given number of redirects.
    Redirect(String, i64),
    /// Give up.
    Refused,
}

/// Decides what a connection attempt does after a host's reply, when `redir_amount` redirects
/// were followed to reach this host. A READY is kept; a CLOSE gives up; a REDIR is followed
/// only where redirects are allowed and no more than `REDIR_LIMIT` are followed in all.
pub fn connect_step(reply: HostReply, allow_redir: bool, redir_amount: i64) -> (res: ConnectStep)
    requires
        0 <= redir_amount <= REDIR_LIMIT,
    ensures
        match reply {
            HostReply::Ready => res is Connected,
            HostReply::Close => res is Refused,
            HostReply::Redir(addr) => if allow_redir && redir_amount + 1 <= REDIR_LIMIT {
                res matches ConnectStep::Redirect(next, n) && next@ == addr@ && n == redir_amount + 1
            } else {
                res is Refused
            },
        },
{
    match reply {
        HostReply::Ready => ConnectStep::Connected,
        HostReply::Redir(newaddr) => {
            if !allow_redir {
                return ConnectStep::Refused;
            }
            if redir_amount + 1 > REDIR_LIMIT {
                return ConnectStep::Refused;
            }
            ConnectStep::Redirect(newaddr, redir_amount + 1)
        },
        HostReply::Close => ConnectStep::Refused,
    }
}

/// The text a host sends a new client: `REDIR \0 address \0` when it redirects the client,
/// else `READY \0`.
pub open spec fn greeting_text(redirect_address: Option<Seq<char>>) -> Seq<char> {
    match redirect_address {
        Some(addr) => redir_word().push('\0') + addr.push('\0'),
        None => ready_word().push('\0'),
    }
}

/// A host's greeting reads back as what it says: READY without a redirect, and with a redirect
/// to an address free of null characters, a REDIR to that very address.
pub proof fn lemma_greeting_read_back(redirect_address: Option<Seq<char>>)
    requires
        redirect_address matches Some(addr) ==> free_of(addr, '\0'),
    ensures
        host_reply_readable(vstd::utf8::encode_utf8(greeting_text(redirect_address))),
        read_reply(vstd::utf8::encode_utf8(greeting_text(redirect_address))) == match redirect_address {
            Some(addr) => Some(ReplyView::Redir(addr)),
            None => Some(ReplyView::Ready),
        },
{
    let text = greeting_text(redirect_address);
    let data = vstd::utf8::encode_utf8(text);
    vstd::utf8::encode_utf8_valid_utf8(text);
    vstd::utf8::encode_utf8_decode_utf8(text);
    assert(data.len() > 0) by {
        if data.len() == 0 {
            assert(data == Seq::<u8>::empty());
            assert(vstd::utf8::decode_utf8(Seq::<u8>::empty()).len() == 0);
        }
    }
    match redirect_address {
        Some(addr) => {
            assert(text.subrange(0, 5) == redir_word());
            assert(text.subrange(0, 6) == redir_word().push('\0'));
            assert(text.skip(6) == addr.push('\0'));
            lemma_split_on_append_free(Seq::<char>::empty(), addr, '\0');
            assert(Seq::<char>::empty() + addr == addr);
            assert(addr.push('\0').drop_last() == addr);
        },
        None => {
            assert(text.subrange(0, 5) == ready_word());
            assert(text.subrange(0, 5) != redir_word()) by {
                assert(text[2] != redir_word()[2]);
            }
        },
    }
}

/// The bytes a host sends a new client: `REDIR \0 address \0` when it redirects the client,
/// else `READY \0`.
pub fn greeting(redirect_address: Option<&str>) -> (res: Vec<u8>)
    ensures
        res@ == vstd::utf8::encode_utf8(
            greeting_text(
                match redirect_address {
                    Some(addr) => Some(addr@),
                    None => None,
                },
            ),
        ),
{
    let mut text = String::new();
    match redirect_address {
        Some(addr) => {
            text.append("REDIR");
            push_char(&mut text, '\0');
            text.append(addr);
            push_char(&mut text, '\0');
            proof {
                reveal_strlit("REDIR");
                assert(text@ == redir_word().push('\0') + addr@.push('\0'));
            }
        },
        None => {
            text.append("READY");
            push_char(&mut text, '\0');
            proof {
                reveal_strlit("READY");
                assert(text@ == ready_word().push('\0'));
            }
        },
    }
    text.as_str().as_bytes_vec()
}

/// One step of reading a stream to its end: appends a chunk that was read, and says whether
/// to read again. Only an empty chunk (the stream closed) ends the reading.
pub fn take_chunk(out: &mut Vec<u8>, chunk: &[u8]) -> (more: bool)
    ensures
        final(out)@ == old(out)@ + chunk@,
        more == (chunk@.len() > 0),
{
    let mut i: usize = 0;
    while i < chunk.len()
        invariant
            i <= chunk@.len(),
            out@ == old(out)@ + chunk@.take(i as int),
        decreases chunk@.len() - i,
    {
        out.push(chunk[i]);
        i = i + 1;
        assert(chunk@.take(i as int) == chunk@.take(i - 1).push(chunk@[i - 1]));
    }
    assert(chunk@.take(chunk@.len() as int) == chunk@);
    chunk.len() > 0
}

/// The items left after removing, one after another, the item at each index that is in range
/// (indices out of range are passed over).
pub open spec fn remove_each<T>(items: Seq<T>, indices: Seq<usize>) -> Seq<T>
    decreases indices.len(),
{
    if indices.len() == 0 {
        items
    } else {
        let next = if (indices[0] as int) < items.len() {
            items.remove(indices[0] as int)
        } else {
            items
        };
        remove_each(next, indices.drop_first())
    }
}

/// Whether index `i` is listed in `dead`.
pub open spec fn listed(dead: Seq<usize>, i: int) -> bool {
    exists|k: int| 0 <= k < dead.len() && dead[k] as int == i
}

/// The items whose indices are not listed in `dead`, in their order.
pub open spec fn without_indices<T>(items: Seq<T>, dead: Seq<usize>) -> Seq<T>
    decreases items.len(),
{
    if items.len() == 0 {
        items
    } else {
        let init = without_indices(items.drop_last(), dead);
        if listed(dead, items.len() - 1) {
            init
        } else {
            init.push(items.last())
        }
    }
}

proof fn lemma_listed_push(dead: Seq<usize>, m: usize, i: int)
    ensures
        listed(dead.push(m), i) <==> (listed(dead, i) || i == m),
{
    if listed(dead.push(m), i) {
        let w = choose|w: int| 0 <= w < dead.push(m).len() && dead.push(m)[w] as int == i;
        if w < dead.len() {
            assert(dead[w] as int == i);
        }
    }
    if listed(dead, i) {
        let w = choose|w: int| 0 <= w < dead.len() && dead[w] as int == i;
        assert(dead.push(m)[w] as int == i);
    }
    if i == m {
        assert(dead.push(m)[dead.len() as int] as int == i);
    }
}

proof fn lemma_without_indices_beyond<T>(items: Seq<T>, dead: Seq<usize>, k: usize)
    requires
        k >= items.len(),
    ensures
        without_indices(items, dead.push(k)) == without_indices(items, dead),
    decreases items.len(),
{
    if items.len() > 0 {
        lemma_without_indices_beyond(items.drop_last(), dead, k);
        lemma_listed_push(dead, k, items.len() - 1);
    }
}

proof fn lemma_without_indices_none<T>(items: Seq<T>)
    ensures
        without_indices(items, Seq::<usize>::empty()) == items,
    decreases items.len(),
{
    if items.len() > 0 {
        lemma_without_indices_none(items.drop_last());
        assert(items.drop_last().push(items.last()) == items);
    }
}

proof fn lemma_without_indices_remove<T>(items: Seq<T>, dead: Seq<usize>, m: usize)
    requires
        m < items.len(),
        forall|k: int| 0 <= k < dead.len() ==> dead[k] < m,
    ensures
        without_indices(items.remove(m as int), dead) == without_indices(items, dead.push(m)),
    decreases items.len(),
{
    let n = items.len() as int;
    lemma_listed_push(dead, m, n - 1);
    if m == n - 1 {
        assert(items.remove(m as int) =~= items.drop_last());
        lemma_without_indices_beyond(items.drop_last(), dead, m);
    } else {
        let r = items.remove(m as int);
        assert(r.drop_last() =~= items.drop_last().remove(m as int));
        assert(r.last() == items.last());
        lemma_without_indices_remove(items.drop_last(), dead, m);
        assert(!listed(dead, n - 1)) by {
            if listed(dead, n - 1) {
                let w = choose|w: int| 0 <= w < dead.len() && dead[w] as int == n - 1;
                assert(dead[w] < m);
            }
        }
        assert(!listed(dead, n - 2)) by {
            if listed(dead, n - 2) {
                let w = choose|w: int| 0 <= w < dead.len() && dead[w] as int == n - 2;
                assert(dead[w] < m);
            }
        }
    }
}

/// Removing the dead streams, found in increasing order of index, leaves exactly the other
/// streams, in their order.
pub proof fn lemma_remove_dead_keeps_the_others<T>(items: Seq<T>, dead: Seq<usize>)
    requires
        forall|a: int, b: int| 0 <= a < b < dead.len() ==> dead[a] < dead[b],
        forall|k: int| 0 <= k < dead.len() ==> dead[k] < items.len(),
    ensures
        remove_each(items, dead.reverse()) == without_indices(items, dead),
    decreases dead.len(),
{
    if dead.len() == 0 {
        assert(dead.reverse() =~= Seq::<usize>::empty());
        assert(dead =~= Seq::<usize>::empty());
        lemma_without_indices_none(items);
    } else {
        let m = dead.last();
        let init = dead.drop_last();
        let rev = dead.reverse();
        assert(rev[0] == m);
        assert(rev.drop_first() =~= init.reverse());
        assert forall|k: int| 0 <= k < init.len() implies init[k] < m by {
            assert(dead[k] < dead[dead.len() - 1]);
        }
        lemma_remove_dead_keeps_the_others(items.remove(m as int), init);
        lemma_without_indices_remove(items, init, m);
        assert(init.push(m) == dead);
    }
}

/// Removes dead streams: `dead` holds their indices, in the order in which they were found;
/// they are removed from the last found to the first, and that order is returned.
pub fn remove_dead<T>(items: &mut Vec<T>, dead: Vec<usize>) -> (res: Vec<usize>)
    ensures
        res@ == dead@.reverse(),
        final(items)@ == remove_each(old(items)@, dead@.reverse()),
{
    let mut removable: Vec<usize> = Vec::new();
    let mut k: usize = dead.len();
    while k > 0
        invariant
            k <= dead@.len(),
            removable@ == dead@.subrange(k as int, dead@.len() as int).reverse(),
        decreases k,
    {
        k = k - 1;
        removable.push(dead[k]);
        assert(removable@ =~= dead@.subrange(k as int, dead@.len() as int).reverse());
    }
    assert(dead@.subrange(0, dead@.len() as int) == dead@);
    let ghost order = removable@;
    assert(order.skip(0) =~= order);
    let mut j: usize = 0;
    while j < removable.len()
        invariant
            j <= removable@.len(),
            removable@ == order,
            remove_each(old(items)@, order) == remove_each(items@, order.skip(j as int)),
        decreases removable@.len() - j,
    {
        let item = removable[j];
        assert(order.skip(j as int).drop_first() == order.skip(j + 1));
        assert(order.skip(j as int)[0] == item);
        if item < items.len() {
            items.remove(item);
        }
        j = j + 1;
    }
    assert(order.skip(order.len() as int) == Seq::<usize>::empty());
    removable
}

} // verus!
