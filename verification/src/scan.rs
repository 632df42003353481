//! Checking the identifiers of a file and of its name against a dictionary.
//!
//! The identifiers come from a tokenizer outside this library, each with the
//! words it splits into; what is found is handed back as a list of messages.

use crate::category::{supported, Category};
use crate::dictionary::{correct, DictModel, Dictionary};
use crate::text::code;
use crate::words::words_of;
use vstd::prelude::*;

verus! {

/// One word of an identifier, with the place in its line where it starts.
#[derive(Clone, Debug, PartialEq, Eq)]
pub struct Word {
    pub token: String,
    pub offset: usize,
}

/// An identifier with the place in its line where it starts, and the words it
/// splits into.
#[derive(Clone, Debug, PartialEq, Eq)]
pub struct Identifier {
    pub token: String,
    pub offset: usize,
    pub words: Vec<Word>,
}

/// What a check reports.
#[derive(Clone, Debug, PartialEq, Eq)]
pub enum Message {
    /// The file holds a zero byte and was not read as text.
    BinaryFile,
    /// A word or an identifier in a line of the file has other spellings.
    Correction { line_num: usize, col_num: usize, typo: String, correction: Vec<String> },
    /// A word or an identifier in the name of the file has other spellings.
    FilenameCorrection { typo: String, correction: Vec<String> },
}

/// A word as a mathematical value.
pub struct WordModel {
    pub token: Seq<char>,
    pub offset: int,
}

/// An identifier as a mathematical value.
pub struct IdentifierModel {
    pub token: Seq<char>,
    pub offset: int,
    pub words: Seq<WordModel>,
}

/// A message as a mathematical value.
pub enum MessageModel {
    BinaryFile,
    Correction { line_num: int, col_num: int, typo: Seq<char>, correction: Seq<Seq<char>> },
    FilenameCorrection { typo: Seq<char>, correction: Seq<Seq<char>> },
}

impl View for Word {
    type V = WordModel;

    open spec fn view(&self) -> WordModel {
        WordModel { token: self.token@, offset: self.offset as int }
    }
}

/// The words of a vector as mathematical values.
pub open spec fn word_models(words: Seq<Word>) -> Seq<WordModel> {
    Seq::new(words.len(), |i: int| words[i]@)
}

impl View for Identifier {
    type V = IdentifierModel;

    open spec fn view(&self) -> IdentifierModel {
        IdentifierModel {
            token: self.token@,
            offset: self.offset as int,
            words: word_models(self.words@),
        }
    }
}

/// The identifiers of a vector as mathematical values.
pub open spec fn identifier_models(identifiers: Seq<Identifier>) -> Seq<IdentifierModel> {
    Seq::new(identifiers.len(), |i: int| identifiers[i]@)
}

/// The lines of a file as mathematical values.
pub open spec fn line_models(lines: Seq<Vec<Identifier>>) -> Seq<Seq<IdentifierModel>> {
    Seq::new(lines.len(), |i: int| identifier_models(lines[i]@))
}

impl View for Message {
    type V = MessageModel;

    open spec fn view(&self) -> MessageModel {
        match self {
            Message::BinaryFile => MessageModel::BinaryFile,
            Message::Correction { line_num, col_num, typo, correction } => {
                MessageModel::Correction {
                    line_num: *line_num as int,
                    col_num: *col_num as int,
                    typo: typo@,
                    correction: words_of(correction@),
                }
            },
            Message::FilenameCorrection { typo, correction } => MessageModel::FilenameCorrection {
                typo: typo@,
                correction: words_of(correction@),
            },
        }
    }
}

/// The messages of a vector as mathematical values.
pub open spec fn message_models(messages: Seq<Message>) -> Seq<MessageModel> {
    Seq::new(messages.len(), |i: int| messages[i]@)
}

/// Whether the bytes of a file hold a zero byte, by which a binary file is
/// told.
pub open spec fn holds_nul(bytes: Seq<u8>) -> bool {
    exists|i: int| 0 <= i < bytes.len() && #[trigger] bytes[i] == 0
}

/// `bstr::ByteSlice::find_byte` gives the place of the first occurrence of a
/// byte, and nothing where the byte does not occur.
#[verifier::external_body]
fn find_byte(buffer: &[u8], byte: u8) -> (r: Option<usize>)
    ensures
        match r {
            Some(i) => i < buffer@.len() && buffer@[i as int] == byte && forall|j: int|
                0 <= j < i ==> #[trigger] buffer@[j] != byte,
            None => forall|j: int| 0 <= j < buffer@.len() ==> #[trigger] buffer@[j] != byte,
        },
{
    bstr::ByteSlice::find_byte(buffer, byte)
}

/// Whether the bytes of a file hold a zero byte.
pub fn is_binary(buffer: &[u8]) -> (r: bool)
    ensures
        r == holds_nul(buffer@),
{
    find_byte(buffer, 0).is_some()
}

/// A character of a hexadecimal literal behind its prefix: a hexadecimal
/// digit, `_` or `'`.
pub open spec fn hex_char(c: char) -> bool {
    ||| 48 <= code(c) <= 57
    ||| 97 <= code(c) <= 102
    ||| 65 <= code(c) <= 70
    ||| c == '_'
    ||| c == '\''
}

/// A hexadecimal literal: `0x` or `0X`, then one or more hexadecimal digits
/// or separators, and nothing else.
pub open spec fn hex(s: Seq<char>) -> bool {
    &&& s.len() >= 3
    &&& s[0] == '0'
    &&& (s[1] == 'x' || s[1] == 'X')
    &&& forall|i: int| 2 <= i < s.len() ==> hex_char(#[trigger] s[i])
}

/// Whether an identifier is a hexadecimal literal.
pub fn is_hex(ident: &str) -> (r: bool)
    ensures
        r == hex(ident@),
{
    let mut count: usize = 0;
    let mut good = true;
    for c in iter: ident.chars()
        invariant
            iter.seq() == ident@,
            count == (if iter.index() < 3 {
                iter.index()
            } else {
                3
            }),
            good == ((iter.index() > 0 ==> ident@[0] == '0') && (iter.index() > 1 ==> (ident@[1]
                == 'x' || ident@[1] == 'X')) && forall|i: int|
                2 <= i < iter.index() ==> hex_char(#[trigger] ident@[i])),
    {
        if count == 0 {
            if c != '0' {
                good = false;
            }
            count = 1;
        } else if count == 1 {
            if c != 'x' && c != 'X' {
                good = false;
            }
            count = 2;
        } else {
            let digit = c >= '0' && c <= '9';
            let small = c >= 'a' && c <= 'f';
            let capital = c >= 'A' && c <= 'F';
            if !(digit || small || capital || c == '_' || c == '\'') {
                good = false;
            }
            count = 3;
        }
    }
    good && count == 3
}

/// Where a finding lies: in the name of the file, or in one of its lines,
/// counted from one.
pub enum Place {
    Name,
    Line(int),
}

/// The message for a finding.
pub open spec fn finding(
    place: Place,
    offset: int,
    typo: Seq<char>,
    fixed: Seq<Seq<char>>,
) -> MessageModel {
    match place {
        Place::Name => MessageModel::FilenameCorrection { typo, correction: fixed },
        Place::Line(line_num) => MessageModel::Correction {
            line_num,
            col_num: offset,
            typo,
            correction: fixed,
        },
    }
}

/// The message for a token, if the dictionary corrects it.
pub open spec fn token_messages(
    d: DictModel,
    category: Category,
    place: Place,
    token: Seq<char>,
    offset: int,
) -> Seq<MessageModel> {
    match correct(d, token, category) {
        Some(fixed) => seq![finding(place, offset, token, fixed)],
        None => Seq::empty(),
    }
}

/// The messages for the first `n` words of an identifier.
pub open spec fn word_messages(
    d: DictModel,
    category: Category,
    place: Place,
    words: Seq<WordModel>,
    n: nat,
) -> Seq<MessageModel>
    decreases n,
{
    if n == 0 {
        Seq::empty()
    } else {
        word_messages(d, category, place, words, (n - 1) as nat) + token_messages(
            d,
            category,
            place,
            words[n - 1].token,
            words[n - 1].offset,
        )
    }
}

/// The messages for an identifier: none for a hexadecimal literal unless
/// `ignore_hex` is set; else one for the identifier as a whole, if it is
/// corrected, and then one for each of its words that is.
pub open spec fn identifier_messages(
    d: DictModel,
    category: Category,
    place: Place,
    identifier: IdentifierModel,
    ignore_hex: bool,
) -> Seq<MessageModel> {
    if !ignore_hex && hex(identifier.token) {
        Seq::empty()
    } else {
        token_messages(d, category, place, identifier.token, identifier.offset) + word_messages(
            d,
            category,
            place,
            identifier.words,
            identifier.words.len(),
        )
    }
}

/// The messages for the first `n` identifiers of a line or a name.
pub open spec fn identifiers_messages(
    d: DictModel,
    category: Category,
    place: Place,
    identifiers: Seq<IdentifierModel>,
    ignore_hex: bool,
    n: nat,
) -> Seq<MessageModel>
    decreases n,
{
    if n == 0 {
        Seq::empty()
    } else {
        identifiers_messages(d, category, place, identifiers, ignore_hex, (n - 1) as nat)
            + identifier_messages(d, category, place, identifiers[n - 1], ignore_hex)
    }
}

/// The messages for the first `n` lines of a file.
pub open spec fn lines_messages(
    d: DictModel,
    category: Category,
    lines: Seq<Seq<IdentifierModel>>,
    ignore_hex: bool,
    n: nat,
) -> Seq<MessageModel>
    decreases n,
{
    if n == 0 {
        Seq::empty()
    } else {
        lines_messages(d, category, lines, ignore_hex, (n - 1) as nat) + identifiers_messages(
            d,
            category,
            Place::Line(n as int),
            lines[n - 1],
            ignore_hex,
            lines[n - 1].len(),
        )
    }
}

/// The messages for the name of a file, where names are checked.
pub open spec fn name_messages(
    d: DictModel,
    category: Category,
    names: Seq<IdentifierModel>,
    check_filenames: bool,
    ignore_hex: bool,
) -> Seq<MessageModel> {
    if check_filenames {
        identifiers_messages(d, category, Place::Name, names, ignore_hex, names.len())
    } else {
        Seq::empty()
    }
}

/// The messages for the content of a file, where files are checked: one that
/// calls the file binary where it holds a zero byte and `binary` is not set,
/// else those of its lines.
pub open spec fn content_messages(
    d: DictModel,
    category: Category,
    has_nul: bool,
    lines: Seq<Seq<IdentifierModel>>,
    check_files: bool,
    ignore_hex: bool,
    binary: bool,
) -> Seq<MessageModel> {
    if !check_files {
        Seq::empty()
    } else if !binary && has_nul {
        seq![MessageModel::BinaryFile]
    } else {
        lines_messages(d, category, lines, ignore_hex, lines.len())
    }
}

/// What the place is at run time: `None` for the name, the line number else.
pub open spec fn place_of(line: Option<usize>) -> Place {
    match line {
        None => Place::Name,
        Some(n) => Place::Line(n as int),
    }
}

/// Adds the message for a token, if the dictionary corrects it.
fn check_token(
    dictionary: &Dictionary,
    category: Category,
    line: Option<usize>,
    token: &String,
    offset: usize,
    out: &mut Vec<Message>,
)
    requires
        supported(category),
    ensures
        message_models(final(out)@) == message_models(old(out)@) + token_messages(
            dictionary@,
            category,
            place_of(line),
            token@,
            offset as int,
        ),
{
    let ghost before = message_models(out@);
    match dictionary.correct_word(token.as_str(), category) {
        Some(correction) => {
            let message = match line {
                None => Message::FilenameCorrection { typo: token.clone(), correction },
                Some(line_num) => Message::Correction {
                    line_num,
                    col_num: offset,
                    typo: token.clone(),
                    correction,
                },
            };
            out.push(message);
            proof {
                assert(message_models(out@) =~= before.push(message@));
                assert(before.push(message@) =~= before + seq![message@]);
            }
        },
        None => {
            proof {
                assert(message_models(out@) =~= before + Seq::<MessageModel>::empty());
            }
        },
    }
}

/// Adds the messages for the identifiers of a line or of a name.
fn check_identifiers(
    dictionary: &Dictionary,
    category: Category,
    line: Option<usize>,
    identifiers: &Vec<Identifier>,
    ignore_hex: bool,
    out: &mut Vec<Message>,
)
    requires
        supported(category),
    ensures
        message_models(final(out)@) == message_models(old(out)@) + identifiers_messages(
            dictionary@,
            category,
            place_of(line),
            identifier_models(identifiers@),
            ignore_hex,
            identifiers@.len(),
        ),
{
    let ghost d = dictionary@;
    let ghost place = place_of(line);
    let ghost all = identifier_models(identifiers@);
    let ghost start = message_models(out@);
    let mut i: usize = 0;
    proof {
        assert(message_models(out@) =~= start + identifiers_messages(
            d,
            category,
            place,
            all,
            ignore_hex,
            0,
        ));
    }
    while i < identifiers.len()
        invariant
            i <= identifiers.len(),
            supported(category),
            d == dictionary@,
            place == place_of(line),
            all == identifier_models(identifiers@),
            message_models(out@) == start + identifiers_messages(
                d,
                category,
                place,
                all,
                ignore_hex,
                i as nat,
            ),
        decreases identifiers.len() - i,
    {
        let identifier = &identifiers[i];
        let ghost model = all[i as int];
        let ghost done = identifiers_messages(d, category, place, all, ignore_hex, i as nat);
        proof {
            assert(model == identifier@);
        }
        if !ignore_hex && is_hex(identifier.token.as_str()) {
            proof {
                assert(start + done =~= start + (done + Seq::<MessageModel>::empty()));
            }
        } else {
            check_token(dictionary, category, line, &identifier.token, identifier.offset, out);
            let ghost whole = token_messages(d, category, place, model.token, model.offset);
            let mut k: usize = 0;
            proof {
                assert(message_models(out@) =~= start + done + whole + word_messages(
                    d,
                    category,
                    place,
                    model.words,
                    0,
                ));
            }
            while k < identifier.words.len()
                invariant
                    k <= identifier.words.len(),
                    supported(category),
                    d == dictionary@,
                    place == place_of(line),
                    model == identifier@,
                    message_models(out@) == start + done + whole + word_messages(
                        d,
                        category,
                        place,
                        model.words,
                        k as nat,
                    ),
                decreases identifier.words.len() - k,
            {
                let word = &identifier.words[k];
                let ghost words_done = word_messages(d, category, place, model.words, k as nat);
                check_token(dictionary, category, line, &word.token, word.offset, out);
                proof {
                    let one = token_messages(d, category, place, word@.token, word@.offset);
                    assert(model.words[k as int] == word@);
                    assert(start + done + whole + words_done + one =~= start + done + whole + (
                    words_done + one));
                }
                k = k + 1;
            }
            proof {
                let parts = word_messages(d, category, place, model.words, model.words.len());
                assert(start + done + whole + parts =~= start + (done + (whole + parts)));
            }
        }
        i = i + 1;
    }
}

/// Checks what was read of a file against a dictionary, in a tracked
/// category.
///
/// `names` holds the identifiers of the file's name, part by part, and is
/// checked where `check_filenames` is set. The content is checked where
/// `check_files` is set: `buffer` holds its bytes and `lines` the identifiers
/// of each of its lines. A file with a zero byte is called binary, unless
/// `binary` is set, and its lines are not looked at. Unless `ignore_hex` is
/// set, an identifier that is a hexadecimal literal is passed over. Lines
/// count from one, and a finding's column is its offset in the line.
pub fn process_file(
    names: &Vec<Identifier>,
    buffer: &[u8],
    lines: &Vec<Vec<Identifier>>,
    dictionary: &Dictionary,
    category: Category,
    check_filenames: bool,
    check_files: bool,
    ignore_hex: bool,
    binary: bool,
) -> (messages: Vec<Message>)
    requires
        supported(category),
    ensures
        message_models(messages@) == name_messages(
            dictionary@,
            category,
            identifier_models(names@),
            check_filenames,
            ignore_hex,
        ) + content_messages(
            dictionary@,
            category,
            holds_nul(buffer@),
            line_models(lines@),
            check_files,
            ignore_hex,
            binary,
        ),
{
    let ghost d = dictionary@;
    let ghost models = line_models(lines@);
    let mut out: Vec<Message> = Vec::new();
    proof {
        assert(message_models(out@) =~= Seq::<MessageModel>::empty());
    }
    if check_filenames {
        check_identifiers(dictionary, category, None, names, ignore_hex, &mut out);
    }
    let ghost named = name_messages(
        d,
        category,
        identifier_models(names@),
        check_filenames,
        ignore_hex,
    );
    proof {
        assert(message_models(out@) =~= named);
    }
    if check_files {
        if !binary && is_binary(buffer) {
            out.push(Message::BinaryFile);
            proof {
                assert(message_models(out@) =~= named + seq![MessageModel::BinaryFile]);
            }
            return out;
        }
        let mut n: usize = 0;
        proof {
            assert(message_models(out@) =~= named + lines_messages(
                d,
                category,
                models,
                ignore_hex,
                0,
            ));
        }
        while n < lines.len()
            invariant
                n <= lines.len(),
                supported(category),
                d == dictionary@,
                models == line_models(lines@),
                message_models(out@) == named + lines_messages(
                    d,
                    category,
                    models,
                    ignore_hex,
                    n as nat,
                ),
            decreases lines.len() - n,
        {
            let ghost done = lines_messages(d, category, models, ignore_hex, n as nat);
            let line = &lines[n];
            check_identifiers(dictionary, category, Some(n + 1), line, ignore_hex, &mut out);
            proof {
                let here = identifiers_messages(
                    d,
                    category,
                    Place::Line(n + 1),
                    models[n as int],
                    ignore_hex,
                    models[n as int].len(),
                );
                assert(models[n as int] == identifier_models(line@));
                assert(named + done + here =~= named + (done + here));
            }
            n = n + 1;
        }
    } else {
        proof {
            assert(named =~= named + Seq::<MessageModel>::empty());
        }
    }
    out
}

} // verus!
