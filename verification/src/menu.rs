//! The menus of a directory: what they offer, in which order, and what can be chosen.

use vstd::prelude::*;
use crate::config::DirConfig;
use crate::model::Maintain;
use crate::state::SvnApp;

verus! {

/// What an entry of a menu does.
#[derive(Clone, Copy, Debug, PartialEq, Eq, Structural)]
pub enum MenuAct {
    Update,
    Upload,
    History,
    OpenFolder,
    /// Opens the second menu.
    More,
    Remove,
    Alias,
    Relocate,
    Bind,
    Unbind,
    Filter,
    Cleanup,
    Resolve,
    Up,
    Down,
    CopyUrl,
}

/// An entry of a menu.
#[derive(Clone, Copy, Debug)]
pub struct MenuItem {
    pub act: MenuAct,
    pub label: &'static str,
    pub enabled: bool,
}

/// The view of a `MenuItem`.
pub struct MenuView {
    pub act: MenuAct,
    pub label: Seq<char>,
    pub enabled: bool,
}

impl View for MenuItem {
    type V = MenuView;

    open spec fn view(&self) -> MenuView {
        MenuView { act: self.act, label: self.label@, enabled: self.enabled }
    }
}

/// The views of the entries in `v`.
pub open spec fn menu_views(v: Seq<MenuItem>) -> Seq<MenuView> {
    Seq::new(v.len(), |i: int| v[i]@)
}

fn item(act: MenuAct, label: &'static str, enabled: bool) -> (r: MenuItem)
    ensures
        r@ == (MenuView { act, label: label@, enabled }),
{
    MenuItem { act, label, enabled }
}

fn add_item(menu: &mut Vec<MenuItem>, act: MenuAct, label: &'static str, enabled: bool)
    ensures
        menu_views(final(menu)@) == menu_views(old(menu)@).push(
            MenuView { act, label: label@, enabled },
        ),
{
    let ghost before = menu@;
    let one = item(act, label, enabled);
    menu.push(one);
    assert(menu_views(menu@) =~= menu_views(before).push(one@));
}

/// The name of the entry that removes a directory, before and after the first press.
pub open spec fn remove_title(confirm: bool) -> Seq<char> {
    if confirm {
        "确认移除?"@
    } else {
        "移除"@
    }
}

/// The first menu of a card. Nothing is removed while a task works on the directory.
pub open spec fn card_entries(confirm: bool, busy: bool) -> Seq<MenuView> {
    seq![
        MenuView { act: MenuAct::Update, label: "↓ 更新"@, enabled: true },
        MenuView { act: MenuAct::Upload, label: "↑ 上传"@, enabled: true },
        MenuView { act: MenuAct::History, label: "历史"@, enabled: true },
        MenuView { act: MenuAct::OpenFolder, label: "打开目录"@, enabled: true },
        MenuView { act: MenuAct::More, label: "更多"@, enabled: true },
        MenuView { act: MenuAct::Remove, label: remove_title(confirm), enabled: !busy },
    ]
}

/// The second menu of a directory, which its row shares with its card. What the directory is bound
/// to can only be given up where it is bound.
pub open spec fn more_entries(d: DirConfig, busy: bool) -> Seq<MenuView> {
    seq![
        MenuView { act: MenuAct::Alias, label: "修改别名"@, enabled: true },
        MenuView { act: MenuAct::Relocate, label: "修改仓库地址"@, enabled: true },
        MenuView {
            act: MenuAct::Bind,
            label: if d.bc_target@.len() == 0 {
                "⚖ 绑定对比对象"@
            } else {
                "⚖ 重新绑定对比对象"@
            },
            enabled: true,
        },
    ] + (if d.bc_target@.len() == 0 {
        Seq::empty()
    } else {
        seq![MenuView { act: MenuAct::Unbind, label: "✖ 解除绑定"@, enabled: true }]
    }) + seq![
        MenuView {
            act: MenuAct::Filter,
            label: if d.bc_filter@.len() == 0 {
                "设置对比筛选条件"@
            } else {
                "修改对比筛选条件"@
            },
            enabled: true,
        },
        MenuView { act: MenuAct::Cleanup, label: Maintain::Cleanup.title(), enabled: !busy },
        MenuView { act: MenuAct::Resolve, label: Maintain::Resolve.title(), enabled: !busy },
        MenuView { act: MenuAct::Up, label: "▲ 上移"@, enabled: true },
        MenuView { act: MenuAct::Down, label: "▼ 下移"@, enabled: true },
        MenuView { act: MenuAct::CopyUrl, label: "复制仓库 URL"@, enabled: true },
    ]
}

impl SvnApp {
    /// The first menu of a card.
    pub fn card_menu(&self, index: usize, busy: bool) -> (r: Vec<MenuItem>)
        ensures
            menu_views(r@) == card_entries(self.list.confirm_remove == Some(index), busy),
    {
        let confirm = match self.list.confirm_remove {
            Some(i) => i == index,
            None => false,
        };
        let mut menu: Vec<MenuItem> = Vec::new();
        add_item(&mut menu, MenuAct::Update, "↓ 更新", true);
        add_item(&mut menu, MenuAct::Upload, "↑ 上传", true);
        add_item(&mut menu, MenuAct::History, "历史", true);
        add_item(&mut menu, MenuAct::OpenFolder, "打开目录", true);
        add_item(&mut menu, MenuAct::More, "更多", true);
        let label = if confirm {
            "确认移除?"
        } else {
            "移除"
        };
        add_item(&mut menu, MenuAct::Remove, label, !busy);
        assert(menu_views(menu@) =~= card_entries(confirm, busy));
        menu
    }

    /// The second menu of a directory.
    pub fn more_menu(&self, index: usize, busy: bool) -> (r: Vec<MenuItem>)
        requires
            index < self.cfg.dirs@.len(),
        ensures
            menu_views(r@) == more_entries(self.cfg.dirs@[index as int], busy),
    {
        let bound = !self.cfg.dirs[index].bc_target.as_str().is_empty();
        let filtered = !self.cfg.dirs[index].bc_filter.as_str().is_empty();
        let mut menu: Vec<MenuItem> = Vec::new();
        add_item(&mut menu, MenuAct::Alias, "修改别名", true);
        add_item(&mut menu, MenuAct::Relocate, "修改仓库地址", true);
        let bind = if bound {
            "⚖ 重新绑定对比对象"
        } else {
            "⚖ 绑定对比对象"
        };
        add_item(&mut menu, MenuAct::Bind, bind, true);
        if bound {
            add_item(&mut menu, MenuAct::Unbind, "✖ 解除绑定", true);
        }
        let filter = if filtered {
            "修改对比筛选条件"
        } else {
            "设置对比筛选条件"
        };
        add_item(&mut menu, MenuAct::Filter, filter, true);
        add_item(&mut menu, MenuAct::Cleanup, Maintain::Cleanup.label(), !busy);
        add_item(&mut menu, MenuAct::Resolve, Maintain::Resolve.label(), !busy);
        add_item(&mut menu, MenuAct::Up, "▲ 上移", true);
        add_item(&mut menu, MenuAct::Down, "▼ 下移", true);
        add_item(&mut menu, MenuAct::CopyUrl, "复制仓库 URL", true);
        assert(menu_views(menu@) =~= more_entries(self.cfg.dirs@[index as int], busy));
        menu
    }
}

/// While a task works on a directory nothing that could get into its way can be chosen.
pub proof fn law_busy_directories_are_left_alone(d: DirConfig, confirm: bool, k: int)
    ensures
        0 <= k < card_entries(confirm, true).len() && card_entries(confirm, true)[k].act
            == MenuAct::Remove ==> !card_entries(confirm, true)[k].enabled,
        0 <= k < more_entries(d, true).len() && (more_entries(d, true)[k].act == MenuAct::Cleanup
            || more_entries(d, true)[k].act == MenuAct::Resolve) ==> !more_entries(
            d,
            true,
        )[k].enabled,
{
}

} // verus!
