//! What holds of the configuration.

use vstd::prelude::*;

use crate::config;
use crate::config::Config;
use crate::outside;
use crate::path;
use crate::path::laws as paths;
use crate::preview::told;
use crate::text::laws as splitting;
use crate::text::lines;

verus! {

/// The texts of the roots.
pub open spec fn root_texts(roots: Seq<Vec<u8>>) -> Seq<Seq<char>> {
    Seq::new(roots.len(), |i: int| outside::lossy_text_of(roots[i]@))
}

proof fn lemma_joined_push(rows: Seq<Seq<char>>, last: Seq<char>, c: char)
    requires
        rows.len() > 0,
    ensures
        splitting::joined_by(rows.push(last), c) == splitting::joined_by(rows, c) + seq![c] + last,
    decreases rows.len(),
{
    let all = rows.push(last);
    if rows.len() == 1 {
        assert(all.skip(1) =~= seq![last]);
        assert(splitting::joined_by(all.skip(1), c) == last);
    } else {
        let rest = rows.skip(1);
        lemma_joined_push(rest, last, c);
        assert(all.skip(1) =~= rest.push(last));
        assert(splitting::joined_by(all, c) =~= splitting::joined_by(rows, c) + seq![c] + last);
    }
}

/// The line of the roots is their texts with colons between them; split at the colons, it
/// gives them back, in order, where none has a colon in it.
pub proof fn law_roots_line_splits_again(roots: Seq<Vec<u8>>)
    requires
        roots.len() > 0,
    ensures
        Config::roots_text(roots) == splitting::joined_by(root_texts(roots), ':'),
        splitting::none_holds(root_texts(roots), ':') ==> lines::fields_of(Config::roots_text(roots), ':')
            == root_texts(roots),
    decreases roots.len(),
{
    let all = root_texts(roots);
    reveal_strlit(":");
    assert(":"@ =~= seq![':']);
    if roots.len() == 1 {
        assert(all[0] == outside::lossy_text_of(roots[0]@));
    } else {
        let front = roots.drop_last();
        law_roots_line_splits_again(front);
        assert(all =~= root_texts(front).push(outside::lossy_text_of(roots.last()@)));
        lemma_joined_push(root_texts(front), outside::lossy_text_of(roots.last()@), ':');
    }
    if splitting::none_holds(all, ':') {
        splitting::law_fields_of_joined(all, ':');
    }
}

/// The older places of the config file lie in the home directory, three names down.
pub proof fn law_older_configs_lie_at_home(home: Seq<u8>, app: &str)
    requires
        home.len() > 0,
        paths::is_kept(config::bytes_of(app)),
    ensures
        path::components(config::older_config(home, app)) == path::components(home) + seq![
            config::bytes_of(".config"),
            config::bytes_of(app),
            config::bytes_of("config.toml"),
        ],
        path::path_starts_with(config::older_config(home, app), home),
{
    let (a, b, c) = (config::bytes_of(".config"), config::bytes_of(app), config::bytes_of("config.toml"));
    reveal_strlit(".config");
    reveal_strlit("config.toml");
    told::lemma_ascii_bytes(".config"@, seq![46u8, 99, 111, 110, 102, 105, 103]);
    told::lemma_ascii_bytes("config.toml"@, seq![99u8, 111, 110, 102, 105, 103, 46, 116, 111, 109, 108]);
    lemma_join_name(home, a);
    let x = path::joined_path(home, a);
    lemma_join_name(x, b);
    let y = path::joined_path(x, b);
    lemma_join_name(y, c);
    let z = path::joined_path(y, c);
    assert(path::components(z) =~= path::components(home) + seq![a, b, c]);
    let (p, q) = (path::components(z), path::components(home));
    assert(p.subrange(0, q.len() as int) =~= q);
}

proof fn lemma_join_name(p: Seq<u8>, name: Seq<u8>)
    requires
        p.len() > 0,
        paths::is_kept(name),
    ensures
        path::components(path::joined_path(p, name)) == path::components(p) + seq![name],
        path::joined_path(p, name).len() > 0,
{
    assert(name[0] as char != '/');
    paths::law_joining(p, name);
    paths::lemma_kept(name);
}

/// A root is configured where it is among the roots, however it is written, and only
/// there.
pub proof fn law_configured_roots(c: Config, root: Seq<u8>, i: int)
    ensures
        0 <= i < c.roots@.len() && path::same_path(c.roots@[i]@, root) ==> c.has_root(root),
        c.roots@.len() == 0 ==> !c.has_root(root),
        (forall|j: int| 0 <= j < c.roots@.len() ==> !path::same_path((#[trigger] c.roots@[j])@, root)) ==> !c.has_root(
            root,
        ),
{
}

} // verus!
