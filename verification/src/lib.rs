use vstd::prelude::*;

pub mod texto;
pub mod models;
pub mod selecao;
pub mod commands;
pub mod services;
pub mod ws_bridge;
pub mod menu;

verus! {

/// Whether a snapshot is due, given the seconds elapsed since the last one.
pub fn deve_salvar_snapshot(decorridos: u64) -> (r: bool)
    ensures
        r == (decorridos >= 180),
{
    decorridos >= 180
}

} // verus!
