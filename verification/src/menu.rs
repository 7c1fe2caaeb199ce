use vstd::prelude::*;

use crate::texto::str_igual;

verus! {

/// The event that a menu item sends to the window, with its payload: the two theme items
/// change the theme, the network item navigates to the network page; other items send none.
pub open spec fn evento(id: Seq<char>) -> Option<(Seq<char>, Seq<char>)> {
    if id == "theme_dark"@ {
        Some(("theme-changed"@, "dark"@))
    } else if id == "theme_light"@ {
        Some(("theme-changed"@, "light"@))
    } else if id == "navigate_network"@ {
        Some(("navigate"@, "/network"@))
    } else {
        None
    }
}

/// The event, and its payload, that the menu item `id` sends.
pub fn evento_do_menu(id: &str) -> (r: Option<(&'static str, &'static str)>)
    ensures
        match r {
            Some((nome, carga)) => evento(id@) == Some((nome@, carga@)),
            None => evento(id@) is None,
        },
{
    if str_igual(id, "theme_dark") {
        Some(("theme-changed", "dark"))
    } else if str_igual(id, "theme_light") {
        Some(("theme-changed", "light"))
    } else if str_igual(id, "navigate_network") {
        Some(("navigate", "/network"))
    } else {
        None
    }
}


/// The dark-theme item switches to the dark theme, the light-theme item to the light theme, the
/// network item opens the network page, and no other item sends anything.
pub proof fn lei_eventos_do_menu(id: Seq<char>)
    ensures
        evento(id) == Some(("theme-changed"@, "dark"@)) <==> id == "theme_dark"@,
        evento(id) == Some(("theme-changed"@, "light"@)) <==> id == "theme_light"@,
        evento(id) == Some(("navigate"@, "/network"@)) <==> id == "navigate_network"@,
        evento(id) is None <==> (id != "theme_dark"@ && id != "theme_light"@ && id != "navigate_network"@),
{
    reveal_strlit("dark");
    reveal_strlit("light");
    reveal_strlit("theme-changed");
    reveal_strlit("navigate");
    assert("dark"@.len() == 4 && "light"@.len() == 5);
    assert("theme-changed"@.len() == 13 && "navigate"@.len() == 8);
    reveal_strlit("theme_dark");
    reveal_strlit("theme_light");
    reveal_strlit("navigate_network");
    assert("theme_dark"@.len() == 10 && "theme_light"@.len() == 11 && "navigate_network"@.len() == 16);
}

} // verus!
