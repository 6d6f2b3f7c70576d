//! Account names: the hierarchy that their `:` separators give, and what a rename makes of a
//! name.

use crate::text::lemma_encode_concat;
use vstd::prelude::*;
use vstd::string::*;
use vstd::utf8::*;

verus! {

/// Whether `name` lies below `account`: it goes on with a `:` after it.
pub open spec fn below(name: Seq<char>, account: Seq<char>) -> bool {
    account.push(':').is_prefix_of(name)
}

/// Whether `name` is `account` or, with `subaccounts`, lies below it.
pub open spec fn selects(account: Seq<char>, subaccounts: bool, name: Seq<char>) -> bool {
    name == account || (subaccounts && below(name, account))
}

/// What a rename of `account` to `new_name` makes of `name`: the part after `account` stays.
pub open spec fn renamed(name: Seq<char>, account: Seq<char>, new_name: Seq<char>) -> Seq<char>
    recommends
        account.is_prefix_of(name),
{
    new_name + name.skip(account.len() as int)
}

pub(crate) proof fn lemma_selected_starts_with(account: Seq<char>, subaccounts: bool, name: Seq<char>)
    requires
        selects(account, subaccounts, name),
    ensures
        account.is_prefix_of(name),
{
    if name == account {
        assert(name.subrange(0, account.len() as int) =~= account);
    } else {
        let parent = account.push(':');
        assert(name.subrange(0, account.len() as int) =~= parent.subrange(0, account.len() as int));
        assert(parent.subrange(0, account.len() as int) =~= account);
    }
}

/// Tells whether `text` starts with `prefix`.
pub fn starts_with(text: &str, prefix: &str) -> (found: bool)
    ensures
        found == prefix@.is_prefix_of(text@),
{
    let mut rest = text.chars();
    assert(text@.skip(0) =~= text@);
    for expected in it: prefix.chars()
        invariant
            it.seq() == prefix@,
            it.index() <= text@.len(),
            vstd::std_specs::iter::IteratorSpec::remaining(&rest) == text@.skip(it.index() as int),
            prefix@.take(it.index() as int) == text@.take(it.index() as int),
    {
        match rest.next() {
            None => {
                return false;
            },
            Some(c) => {
                if c != expected {
                    assert(text@[it.index() as int] != prefix@[it.index() as int]);
                    return false;
                }
                assert(prefix@.take(it.index() + 1) =~= prefix@.take(it.index() as int).push(c));
                assert(text@.take(it.index() + 1) =~= text@.take(it.index() as int).push(c));
                assert(text@.skip(it.index() + 1) =~= text@.skip(it.index() as int).drop_first());
            },
        }
    }
    assert(prefix@.take(prefix@.len() as int) =~= prefix@);
    true
}

proof fn lemma_boundary_after_prefix(prefix: Seq<char>, suffix: Seq<char>)
    ensures
        encode_utf8(prefix + suffix) == encode_utf8(prefix) + encode_utf8(suffix),
        valid_utf8(encode_utf8(prefix + suffix)),
        is_char_boundary(encode_utf8(prefix + suffix), encode_utf8(prefix).len() as int),
{
    let bytes = encode_utf8(prefix + suffix);
    let mid = encode_utf8(prefix).len() as int;
    lemma_encode_concat(prefix, suffix);
    encode_utf8_valid_utf8(prefix + suffix);
    if suffix.len() == 0 {
        assert(mid == bytes.len());
        is_char_boundary_start_end_of_seq(bytes);
    } else {
        encode_utf8_first_scalar(suffix);
        assert(bytes[mid] == encode_utf8(suffix)[0]);
        is_char_boundary_iff_not_is_continuation_byte(bytes, mid);
    }
}

/// The name that a rename of `account` to `new_name` gives to `name`.
pub fn rename_account(name: &str, account: &str, new_name: &str) -> (result: String)
    requires
        account@.is_prefix_of(name@),
    ensures
        result@ == renamed(name@, account@, new_name@),
{
    let ghost suffix = name@.skip(account@.len() as int);
    proof {
        assert(account@ + suffix =~= name@);
        lemma_boundary_after_prefix(account@, suffix);
    }
    let (_account, rest) = name.split_at(account.as_bytes().len());
    proof {
        assert(encode_utf8(rest@) =~= encode_utf8(suffix));
        encode_utf8_decode_utf8(rest@);
        encode_utf8_decode_utf8(suffix);
    }
    let mut result: String = new_name.to_owned();
    result.append(rest);
    result
}

/// An account that merely begins with the letters of another, such as `Assets:CheckingOld` and
/// `Assets:Checking`, is never selected by it.
pub proof fn law_prefix_sibling_not_selected(
    account: Seq<char>,
    subaccounts: bool,
    name: Seq<char>,
)
    requires
        account.is_prefix_of(name),
        name.len() > account.len(),
        name[account.len() as int] != ':',
    ensures
        !selects(account, subaccounts, name),
{
    let parent = account.push(':');
    if parent.is_prefix_of(name) {
        let n = account.len() as int;
        assert(parent[n] == name.subrange(0, n + 1)[n]);
    }
}

/// Accounts below an account that lies below another lie below that other one too.
pub proof fn law_below_is_transitive(name: Seq<char>, middle: Seq<char>, account: Seq<char>)
    requires
        below(name, middle),
        below(middle, account),
    ensures
        below(name, account),
{
    let parent = account.push(':');
    assert(parent =~= name.subrange(0, parent.len() as int)) by {
        assert forall|i: int| 0 <= i < parent.len() implies parent[i] == name[i] by {
            assert(parent[i] == middle.subrange(0, parent.len() as int)[i]);
            assert(middle.push(':')[i] == name.subrange(0, middle.len() as int + 1)[i]);
        }
    }
}

/// No account lies below itself, and of two accounts at most one lies below the other.
pub proof fn law_below_is_strict(name: Seq<char>, account: Seq<char>)
    requires
        below(name, account),
    ensures
        name != account,
        !below(account, name),
{
}

/// With sub-accounts, an account selects all that it selects without them.
pub proof fn law_subaccounts_select_more(account: Seq<char>, name: Seq<char>)
    requires
        selects(account, false, name),
    ensures
        name == account,
        selects(account, true, name),
{
}

/// The renamed account itself gets exactly the new name.
pub proof fn law_account_gets_new_name(account: Seq<char>, new_name: Seq<char>)
    ensures
        renamed(account, account, new_name) == new_name,
{
    assert(renamed(account, account, new_name) =~= new_name);
}

/// An account below the renamed one comes to lie below the new name, and keeps the part after
/// it.
pub proof fn law_subaccount_keeps_its_part(
    name: Seq<char>,
    account: Seq<char>,
    new_name: Seq<char>,
)
    requires
        below(name, account),
    ensures
        below(renamed(name, account, new_name), new_name),
        renamed(name, account, new_name).skip(new_name.len() as int) == name.skip(
            account.len() as int,
        ),
{
    let result = renamed(name, account, new_name);
    let parent = new_name.push(':');
    assert(name[account.len() as int] == ':') by {
        let n = account.len() as int;
        assert(account.push(':')[n] == name.subrange(0, n + 1)[n]);
    }
    assert(parent =~= result.subrange(0, parent.len() as int));
    assert(result.skip(new_name.len() as int) =~= name.skip(account.len() as int));
}

/// A rename to the name that an account has changes nothing.
pub proof fn law_rename_to_same_name(account: Seq<char>, subaccounts: bool, name: Seq<char>)
    requires
        selects(account, subaccounts, name),
    ensures
        renamed(name, account, account) == name,
{
    lemma_selected_starts_with(account, subaccounts, name);
    assert(account + name.skip(account.len() as int) =~= name) by {
        assert(account =~= name.subrange(0, account.len() as int));
    }
}

/// A rename is undone by the rename back: the new name selects what the old one selected, and
/// the rename back gives each account its first name.
pub proof fn law_rename_back(
    account: Seq<char>,
    new_name: Seq<char>,
    subaccounts: bool,
    name: Seq<char>,
)
    requires
        selects(account, subaccounts, name),
    ensures
        selects(new_name, subaccounts, renamed(name, account, new_name)),
        renamed(renamed(name, account, new_name), new_name, account) == name,
{
    lemma_selected_starts_with(account, subaccounts, name);
    if name == account {
        law_account_gets_new_name(account, new_name);
    } else {
        law_subaccount_keeps_its_part(name, account, new_name);
    }
    assert(renamed(name, account, new_name).skip(new_name.len() as int) =~= name.skip(
        account.len() as int,
    ));
    law_rename_to_same_name(account, subaccounts, name);
}

/// Two accounts that a rename gives one name were one account before.
pub proof fn law_rename_keeps_accounts_apart(
    account: Seq<char>,
    new_name: Seq<char>,
    subaccounts: bool,
    one: Seq<char>,
    other: Seq<char>,
)
    requires
        selects(account, subaccounts, one),
        selects(account, subaccounts, other),
        renamed(one, account, new_name) == renamed(other, account, new_name),
    ensures
        one == other,
{
    law_rename_back(account, new_name, subaccounts, one);
    law_rename_back(account, new_name, subaccounts, other);
}

/// With sub-accounts, an account selects every name that goes on after it with a `:`, at any
/// depth.
pub proof fn law_every_depth_is_selected(account: Seq<char>, rest: Seq<char>)
    ensures
        below(account + seq![':'] + rest, account),
        selects(account, true, account + seq![':'] + rest),
{
    let name = account + seq![':'] + rest;
    assert(account.push(':') =~= name.subrange(0, account.len() as int + 1));
}

/// A name is selected if and only if it is the account or, with sub-accounts, has the account in
/// front and a `:` behind that.
pub proof fn law_selected_names(account: Seq<char>, subaccounts: bool, name: Seq<char>)
    ensures
        selects(account, false, name) <==> name == account,
        selects(account, true, name) <==> (name == account || {
            &&& name.len() > account.len()
            &&& forall|i: int| 0 <= i < account.len() ==> name[i] == #[trigger] account[i]
            &&& name[account.len() as int] == ':'
        }),
        selects(account, true, name) && name != account ==> below(name, account),
        selects(account, subaccounts, account),
        !below(account, account),
{
    let n = account.len() as int;
    let parent = account.push(':');
    if parent.is_prefix_of(name) {
        assert forall|i: int| 0 <= i < n implies name[i] == #[trigger] account[i] by {
            assert(parent[i] == name.subrange(0, n + 1)[i]);
        }
        assert(parent[n] == name.subrange(0, n + 1)[n]);
    }
    if name.len() > n && name[n] == ':' && (forall|i: int|
        0 <= i < n ==> name[i] == #[trigger] account[i]) {
        assert forall|i: int| 0 <= i < parent.len() implies parent[i] == name.subrange(
            0,
            n + 1,
        )[i] by {
            if i < n {
                assert(name[i] == account[i]);
            }
        }
        assert(parent =~= name.subrange(0, n + 1));
    }
}

/// Whatever follows the account in a name follows the new name after the rename.
pub proof fn law_rest_of_name_stays(account: Seq<char>, rest: Seq<char>, new_name: Seq<char>)
    ensures
        renamed(account + rest, account, new_name) == new_name + rest,
{
    assert((account + rest).skip(account.len() as int) =~= rest);
}

} // verus!
