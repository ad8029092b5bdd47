//! Where a mailbox of the server lives below the archive directory.
use crate::config::{ArchiveConfigView, Config, ConfigView, MailboxFormat};
use crate::text::{
    join, joined, joined_then_split, lemma_filter_parts, lemma_joined_first, lemma_joined_lacks,
    lemma_split_whole, split, split_at_each, split_in_parts, views,
};
use vstd::prelude::*;

verus! {

/// The path `rel` seen from the directory `base`: `rel` itself where it is absolute, else both
/// with one `/` between them where `base` is not empty and does not end in one already.
pub open spec fn path_joined(base: Seq<char>, rel: Seq<char>) -> Seq<char> {
    if rel.len() > 0 && rel[0] == '/' {
        rel
    } else if base.len() == 0 || base.last() == '/' {
        base + rel
    } else {
        base.push('/') + rel
    }
}

/// The path `rel` seen from the directory `base`, as `Path::join` has it on Unix.
pub fn join_path(base: &str, rel: &str) -> (res: String)
    ensures
        res@ == path_joined(base@, rel@),
{
    if rel.unicode_len() > 0 && rel.get_char(0) == '/' {
        return rel.to_owned();
    }
    let len: usize = base.unicode_len();
    let mut out = base.to_owned();
    if len > 0 && base.get_char(len - 1) != '/' {
        out.push('/');
    }
    out.append(rel);
    out
}

/// A piece of a mailbox name that stands for a directory of its own.
pub open spec fn is_kept(piece: Seq<char>) -> bool {
    piece.len() > 0 && piece != seq!['.'] && piece != seq!['.', '.']
}

/// `s` with `_` for each path separator.
pub open spec fn without_separators(s: Seq<char>) -> Seq<char> {
    s.map_values(|c: char| if c == '/' || c == '\\' { '_' } else { c })
}

/// `s` with `_` for each dot.
pub open spec fn without_dots(s: Seq<char>) -> Seq<char> {
    s.map_values(|c: char| if c == '.' { '_' } else { c })
}

/// The directory names that a mailbox name stands for: its pieces between the delimiters, less
/// those that are empty, `.` or `..`, each with `_` for the path separators in it.
pub open spec fn components(name: Seq<char>, delimiter: char) -> Seq<Seq<char>> {
    split(name, delimiter).filter(|piece: Seq<char>| is_kept(piece)).map_values(
        |piece: Seq<char>| without_separators(piece),
    )
}

/// The path of a mailbox below the archive directory.
pub open spec fn relative_path(format: MailboxFormat, name: Seq<char>, delimiter: char) -> Seq<
    char,
> {
    let parts = components(name, delimiter);
    match format {
        MailboxFormat::MaildirPP => seq!['.'] + joined(
            parts.map_values(|part: Seq<char>| without_dots(part)),
            '.',
        ),
        MailboxFormat::Maildir | MailboxFormat::Mh => joined(parts, '/'),
    }
}

/// The local name of a mailbox: the one that the configuration gives it, else its own.
pub open spec fn local_name(config: ConfigView, name: Seq<char>) -> Seq<char> {
    if config.archive.rename_mailboxes.contains_key(name) {
        config.archive.rename_mailboxes[name]
    } else {
        name
    }
}

/// The path of the local mailbox for `name`.
pub open spec fn path_of(config: ConfigView, name: Seq<char>, delimiter: char) -> Seq<char> {
    path_joined(
        config.archive.directory,
        relative_path(config.archive.format, local_name(config, name), delimiter),
    )
}

/// Whether a piece of a mailbox name stands for a directory of its own.
fn keeps(piece: &Vec<char>) -> (res: bool)
    ensures
        res == is_kept(piece@),
{
    let dots = (piece.len() == 1 && piece[0] == '.') || (piece.len() == 2 && piece[0] == '.'
        && piece[1] == '.');
    assert(piece.len() == 1 && piece[0] == '.' ==> piece@ == seq!['.']);
    assert(piece.len() == 2 && piece[0] == '.' && piece[1] == '.' ==> piece@ == seq!['.', '.']);
    piece.len() > 0 && !dots
}

/// `piece` with `_` for each path separator and, where `dots` is set, for each dot.
fn sanitised(piece: &Vec<char>, dots: bool) -> (res: String)
    ensures
        res@ == if dots {
            without_dots(without_separators(piece@))
        } else {
            without_separators(piece@)
        },
{
    let mut out = String::new();
    let mut i: usize = 0;
    let ghost wanted = if dots {
        without_dots(without_separators(piece@))
    } else {
        without_separators(piece@)
    };
    while i < piece.len()
        invariant
            i <= piece.len(),
            wanted == if dots {
                without_dots(without_separators(piece@))
            } else {
                without_separators(piece@)
            },
            out@ == wanted.take(i as int),
        decreases piece.len() - i,
    {
        let c = piece[i];
        let replaced = c == '/' || c == '\\' || (dots && c == '.');
        out.push(if replaced { '_' } else { c });
        i += 1;
    }
    out
}

/// The directory names that a mailbox name stands for, without dots where `dots` is set.
fn component_names(name: &str, delimiter: char, dots: bool) -> (res: Vec<String>)
    ensures
        views(res@) == if dots {
            components(name@, delimiter).map_values(|part: Seq<char>| without_dots(part))
        } else {
            components(name@, delimiter)
        },
{
    let pieces = split_at_each(name, delimiter);
    let mut out: Vec<String> = Vec::new();
    let ghost texts = pieces@.map_values(|piece: Vec<char>| piece@);
    let ghost kept = |piece: Seq<char>| is_kept(piece);
    let ghost cleaned = |piece: Seq<char>|
        if dots {
            without_dots(without_separators(piece))
        } else {
            without_separators(piece)
        };
    let mut i: usize = 0;
    reveal(Seq::filter);
    assert(views(out@) == texts.take(0).filter(kept).map_values(cleaned));
    while i < pieces.len()
        invariant
            i <= pieces.len(),
            texts == pieces@.map_values(|piece: Vec<char>| piece@),
            kept == (|piece: Seq<char>| is_kept(piece)),
            cleaned == (|piece: Seq<char>|
                if dots {
                    without_dots(without_separators(piece))
                } else {
                    without_separators(piece)
                }),
            views(out@) == texts.take(i as int).filter(kept).map_values(cleaned),
        decreases pieces.len() - i,
    {
        let ghost before = views(out@);
        assert(texts.take(i + 1).drop_last() == texts.take(i as int));
        assert(texts.take(i + 1).last() == pieces@[i as int]@);
        reveal(Seq::filter);
        if keeps(&pieces[i]) {
            out.push(sanitised(&pieces[i], dots));
            assert(views(out@) == before.push(cleaned(pieces@[i as int]@)));
            assert(texts.take(i + 1).filter(kept) == texts.take(i as int).filter(kept).push(
                pieces@[i as int]@,
            ));
        }
        assert(views(out@) == texts.take(i + 1).filter(kept).map_values(cleaned));
        i += 1;
    }
    assert(texts.take(i as int) == texts);
    proof {
        let parts = components(name@, delimiter);
        if dots {
            assert(views(out@) == parts.map_values(|part: Seq<char>| without_dots(part)));
        } else {
            assert(views(out@) == parts);
        }
    }
    out
}

/// Map an IMAP mailbox name to a local path under the archive directory for the configured
/// format.
///
/// - `Maildir` / `Mh`: Nested subdirectories -> `archive_dir/INBOX/Sent`
/// - `MaildirPP`     : Flat dot-prefixed dir -> `archive_dir/.INBOX.Sent`
///
/// Empty components, `.`, and `..` are dropped to prevent path traversal.
/// Any path separator embedded in a component is replaced with `_`.
pub fn mailbox_path(config: &Config, mailbox_name: &str, delimiter: char) -> (res: String)
    ensures
        res@ == path_of(config@, mailbox_name@, delimiter),
{
    let archive = config.archive();
    let name: &str = match archive.rename_mailboxes().get(mailbox_name) {
        Some(rename) => rename.as_str(),
        None => mailbox_name,
    };
    let relative = match archive.format() {
        MailboxFormat::MaildirPP => {
            let mut dotted = String::new();
            dotted.push('.');
            dotted.append(join(&component_names(name, delimiter, true), '.').as_str());
            dotted
        },
        MailboxFormat::Maildir | MailboxFormat::Mh => join(
            &component_names(name, delimiter, false),
            '/',
        ),
    };
    join_path(archive.directory(), relative.as_str())
}

/// Every directory name is kept and holds no path separator.
proof fn lemma_components(name: Seq<char>, delimiter: char)
    ensures
        forall|i: int|
            0 <= i < components(name, delimiter).len() ==> {
                let part = #[trigger] components(name, delimiter)[i];
                is_kept(part) && !part.contains('/') && !part.contains('\\')
            },
{
    let kept = |piece: Seq<char>| is_kept(piece);
    let pieces = split(name, delimiter);
    assert forall|i: int| 0 <= i < components(name, delimiter).len() implies {
        let part = #[trigger] components(name, delimiter)[i];
        is_kept(part) && !part.contains('/') && !part.contains('\\')
    } by {
        pieces.lemma_filter_pred(kept, i);
        let piece = pieces.filter(kept)[i];
        let part = components(name, delimiter)[i];
        assert(part == without_separators(piece));
        assert(part == seq!['.'] ==> part[0] == '.' && piece == seq!['.']);
        assert(part == seq!['.', '.'] ==> part[0] == '.' && part[1] == '.' && piece == seq![
            '.',
            '.',
        ]);
    }
}

/// The directory names of the flat layout hold neither dots nor path separators.
proof fn lemma_flat_components(name: Seq<char>, delimiter: char)
    ensures
        ({
            let parts = components(name, delimiter).map_values(
                |part: Seq<char>| without_dots(part),
            );
            forall|i: int|
                0 <= i < parts.len() ==> {
                    let part = #[trigger] parts[i];
                    &&& part.len() > 0
                    &&& !part.contains('.')
                    &&& !part.contains('/')
                    &&& !part.contains('\\')
                }
        }),
{
    let plain = components(name, delimiter);
    let parts = plain.map_values(|part: Seq<char>| without_dots(part));
    lemma_components(name, delimiter);
    assert forall|i: int| 0 <= i < parts.len() implies {
        let part = #[trigger] parts[i];
        &&& part.len() > 0
        &&& !part.contains('.')
        &&& !part.contains('/')
        &&& !part.contains('\\')
    } by {
        let part = parts[i];
        assert(part == without_dots(plain[i]));
        assert(forall|k: int| 0 <= k < part.len() ==> part[k] == plain[i][k] || part[k] == '_');
        assert(forall|k: int| 0 <= k < part.len() ==> plain[i].contains(#[trigger] plain[i][k]));
    }
}

/// A mailbox name cannot lead out of the archive directory. The local path is the archive
/// directory and a relative path below it, and no directory name in the relative path is `..`.
/// Where mailboxes nest, none of the names is empty or `.` either, unless nothing is left of the
/// mailbox name, which then stands for the archive directory itself. In the flat layout there is
/// one name, which starts with a dot. No backslash is left in either.
pub proof fn path_stays_below_directory(config: ConfigView, name: Seq<char>, delimiter: char)
    ensures
        ({
            let format = config.archive.format;
            let rel = relative_path(format, local_name(config, name), delimiter);
            let names = split(rel, '/');
            &&& rel.len() == 0 || rel[0] != '/'
            &&& path_of(config, name, delimiter) == path_joined(config.archive.directory, rel)
            &&& !rel.contains('\\')
            &&& forall|i: int| 0 <= i < names.len() ==> #[trigger] names[i] != seq!['.', '.']
            &&& format is MaildirPP ==> rel.len() > 0 && rel[0] == '.' && names == seq![rel]
            &&& !(format is MaildirPP) ==> rel.len() == 0 || forall|i: int|
                0 <= i < names.len() ==> is_kept(#[trigger] names[i])
        }),
{
    let format = config.archive.format;
    let local = local_name(config, name);
    let rel = relative_path(format, local, delimiter);
    let parts = components(local, delimiter);
    lemma_components(local, delimiter);
    if format is MaildirPP {
        let flat = parts.map_values(|part: Seq<char>| without_dots(part));
        lemma_flat_components(local, delimiter);
        lemma_joined_lacks(flat, '.', '/');
        lemma_joined_lacks(flat, '.', '\\');
        let rest = joined(flat, '.');
        assert forall|c: char| c != '.' && !rest.contains(c) implies !rel.contains(c) by {
            if rel.contains(c) {
                let k = choose|k: int| 0 <= k < rel.len() && rel[k] == c;
                assert(rest[k - 1] == c);
            }
        }
        lemma_split_whole(rel, '/');
        if rel == seq!['.', '.'] {
            assert(rest == rel.skip(1));
            assert(rest == seq!['.']);
            assert(flat.len() > 0);
            joined_then_split(flat, '.');
            assert(rest.drop_last() == Seq::<char>::empty());
            reveal_with_fuel(split, 2);
            assert(flat[0] == Seq::<char>::empty());
        }
    } else if parts.len() > 0 {
        lemma_joined_first(parts, '/');
        assert(parts[0].contains(parts[0][0]));
        lemma_joined_lacks(parts, '/', '\\');
        joined_then_split(parts, '/');
    } else {
        lemma_split_whole(rel, '/');
    }
}

/// In the flat layout the levels of a mailbox name stay apart: dots inside a level are gone, so
/// splitting the directory name at its dots gives the levels back.
pub proof fn flat_name_keeps_levels(name: Seq<char>, delimiter: char)
    requires
        components(name, delimiter).len() > 0,
    ensures
        split(relative_path(MailboxFormat::MaildirPP, name, delimiter).skip(1), '.')
            == components(name, delimiter).map_values(|part: Seq<char>| without_dots(part)),
{
    let flat = components(name, delimiter).map_values(|part: Seq<char>| without_dots(part));
    lemma_flat_components(name, delimiter);
    joined_then_split(flat, '.');
    assert(relative_path(MailboxFormat::MaildirPP, name, delimiter).skip(1) == joined(flat, '.'));
}

/// A path that is seen from a directory is itself where it is absolute. Otherwise it starts with
/// the directory and ends with what it was, and no more than a slash stands between. There is one,
/// unless the directory is empty.
pub proof fn joined_path_lies_in_directory(base: Seq<char>, rel: Seq<char>)
    ensures
        rel.len() > 0 && rel[0] == '/' ==> path_joined(base, rel) == rel,
        rel.len() == 0 || rel[0] != '/' ==> {
            let path = path_joined(base, rel);
            &&& base.len() + rel.len() <= path.len() <= base.len() + rel.len() + 1
            &&& path.take(base.len() as int) == base
            &&& path.skip(path.len() - rel.len()) == rel
            &&& base.len() > 0 ==> path[path.len() - rel.len() - 1] == '/'
            &&& base.len() == 0 ==> path == rel
        },
{
    if rel.len() == 0 || rel[0] != '/' {
        let path = path_joined(base, rel);
        assert(path.take(base.len() as int) =~= base);
        assert(path.skip(path.len() - rel.len()) =~= rel);
        assert(base.len() == 0 ==> path =~= rel);
    }
}

/// The levels of a mailbox name are those in front of a delimiter and then those behind it.
pub proof fn levels_stay_in_order(a: Seq<char>, b: Seq<char>, delimiter: char)
    ensures
        components(a.push(delimiter) + b, delimiter) == components(a, delimiter) + components(
            b,
            delimiter,
        ),
{
    let kept = |piece: Seq<char>| is_kept(piece);
    let left = split(a, delimiter);
    let right = split(b, delimiter);
    split_in_parts(a, b, delimiter);
    lemma_filter_parts(left, right, kept);
    assert(components(a.push(delimiter) + b, delimiter) =~= components(a, delimiter) + components(
        b,
        delimiter,
    ));
}

/// A name without a delimiter is one level, unless it is empty, `.` or `..`, which is none. The
/// level is the name, but for path separators, in place of which it has `_`.
pub proof fn single_level_is_its_name(name: Seq<char>, delimiter: char)
    requires
        !name.contains(delimiter),
    ensures
        ({
            let levels = components(name, delimiter);
            if name.len() == 0 || name == seq!['.'] || name == seq!['.', '.'] {
                levels.len() == 0
            } else {
                &&& levels.len() == 1
                &&& levels[0].len() == name.len()
                &&& forall|i: int|
                    0 <= i < name.len() ==> (#[trigger] levels[0][i]) == if name[i] == '/'
                        || name[i] == '\\' {
                        '_'
                    } else {
                        name[i]
                    }
            }
        }),
{
    reveal(Seq::filter);
    let kept = |piece: Seq<char>| is_kept(piece);
    lemma_split_whole(name, delimiter);
    let one = seq![name];
    assert(one.drop_last() =~= Seq::<Seq<char>>::empty());
    assert(Seq::<Seq<char>>::empty().filter(kept) =~= Seq::<Seq<char>>::empty());
    assert(one.last() == name);
    if is_kept(name) {
        assert(one.filter(kept) =~= one);
        assert(components(name, delimiter)[0] == without_separators(name));
    }
}

/// Where mailboxes nest, each level of a mailbox name is a directory, in their order.
pub proof fn nested_name_keeps_levels(format: MailboxFormat, name: Seq<char>, delimiter: char)
    requires
        !(format is MaildirPP),
    ensures
        components(name, delimiter).len() > 0 ==> split(
            relative_path(format, name, delimiter),
            '/',
        ) == components(name, delimiter),
        components(name, delimiter).len() == 0 ==> relative_path(format, name, delimiter).len()
            == 0,
{
    lemma_components(name, delimiter);
    if components(name, delimiter).len() > 0 {
        joined_then_split(components(name, delimiter), '/');
    }
}

/// In the flat layout a level keeps its length and its characters, but for dots, in place of which
/// it has `_`.
pub proof fn flat_level_is_its_name(level: Seq<char>, i: int)
    requires
        0 <= i < level.len(),
    ensures
        without_dots(level).len() == level.len(),
        without_dots(level)[i] == if level[i] == '.' {
            '_'
        } else {
            level[i]
        },
{
}

/// A mailbox that the configuration gives another name lives where a mailbox of that name lives that
/// is not renamed. One that it does not rename lives where its own name says.
pub proof fn renamed_mailbox_lives_under_new_name(
    config: ConfigView,
    name: Seq<char>,
    delimiter: char,
)
    ensures
        ({
            let plain = ConfigView {
                archive: ArchiveConfigView { rename_mailboxes: Map::empty(), ..config.archive },
                ..config
            };
            let renames = config.archive.rename_mailboxes;
            let new_name = if renames.contains_key(name) {
                renames[name]
            } else {
                name
            };
            path_of(config, name, delimiter) == path_of(plain, new_name, delimiter)
        }),
{
}

/// In the flat layout a mailbox name of which nothing is left stands for the archive directory.
pub proof fn empty_flat_name_is_directory(name: Seq<char>, delimiter: char)
    requires
        components(name, delimiter).len() == 0,
    ensures
        relative_path(MailboxFormat::MaildirPP, name, delimiter) == seq!['.'],
{
    let flat = components(name, delimiter).map_values(|part: Seq<char>| without_dots(part));
    assert(joined(flat, '.') =~= Seq::<char>::empty());
    assert(relative_path(MailboxFormat::MaildirPP, name, delimiter) =~= seq!['.']);
}

} // verus!
