//! What the game tells its players and what the players tell the game.

use crate::text::{decimal, u64_to_string};
use vstd::prelude::*;
use vstd::string::*;

verus! {

/// The kind of an event.
#[derive(Clone, Copy, Debug, PartialEq, Eq, Structural)]
pub enum MessageType {
    Combat,
    Healing,
    LevelEvent,
    System,
}

/// An event of the game, as a ready text and, for fights and healing, as values.
#[derive(Debug)]
pub struct GameMessage {
    pub message_type: MessageType,
    pub text: String,
    pub attacker: Option<String>,
    pub target: Option<String>,
    pub damage: Option<u32>,
    pub target_health_after: Option<u32>,
    pub target_died: Option<bool>,
    pub is_crit: Option<bool>,
}

/// An event of a fight.
pub type CombatMessage = GameMessage;

/// An event as plain values.
pub ghost struct GameMessageView {
    pub message_type: MessageType,
    pub text: Seq<char>,
    pub attacker: Option<Seq<char>>,
    pub target: Option<Seq<char>>,
    pub damage: Option<u32>,
    pub target_health_after: Option<u32>,
    pub target_died: Option<bool>,
    pub is_crit: Option<bool>,
}

impl View for GameMessage {
    type V = GameMessageView;

    open spec fn view(&self) -> GameMessageView {
        GameMessageView {
            message_type: self.message_type,
            text: self.text@,
            attacker: match self.attacker {
                Some(s) => Some(s@),
                None => None,
            },
            target: match self.target {
                Some(s) => Some(s@),
                None => None,
            },
            damage: self.damage,
            target_health_after: self.target_health_after,
            target_died: self.target_died,
            is_crit: self.is_crit,
        }
    }
}

/// The events of a list as plain values.
pub open spec fn message_views(s: Seq<GameMessage>) -> Seq<GameMessageView> {
    s.map_values(|m: GameMessage| m@)
}

/// What a player asks for: a move, or to confirm the stairs or a restart.
#[derive(Debug)]
pub struct PlayerCommand {
    pub action: String,
    pub confirm_stairs: Option<bool>,
    pub confirm_restart: Option<bool>,
}

/// The text of a hit: who killed whom, or who dealt how much damage to whom.
pub open spec fn combat_text(attacker: Seq<char>, target: Seq<char>, damage: u32, died: bool) -> Seq<
    char,
> {
    if died {
        attacker + " killed "@ + target + "!"@
    } else {
        attacker + " dealt "@ + decimal(damage as nat) + " damage to "@ + target
    }
}

/// The text of a critical hit.
pub open spec fn crit_text(attacker: Seq<char>, target: Seq<char>, damage: u32, died: bool) -> Seq<
    char,
> {
    if died {
        attacker + " CRITICALLY killed "@ + target + "!"@
    } else {
        attacker + " CRITICALLY dealt "@ + decimal(damage as nat) + " damage to "@ + target
    }
}

/// The text of a healing.
pub open spec fn healing_text(item: Seq<char>, target: Seq<char>, amount: u32) -> Seq<char> {
    item + " healed "@ + target + " for "@ + decimal(amount as nat) + " HP"@
}

/// The event of a hit, critical or not.
pub open spec fn hit_message(
    attacker: Seq<char>,
    target: Seq<char>,
    damage: u32,
    health_after: u32,
    died: bool,
    is_crit: bool,
) -> GameMessageView {
    GameMessageView {
        message_type: MessageType::Combat,
        text: if is_crit {
            crit_text(attacker, target, damage, died)
        } else {
            combat_text(attacker, target, damage, died)
        },
        attacker: Some(attacker),
        target: Some(target),
        damage: Some(damage),
        target_health_after: Some(health_after),
        target_died: Some(died),
        is_crit: Some(is_crit),
    }
}

/// The event of a healing.
pub open spec fn healing_message(
    item: Seq<char>,
    target: Seq<char>,
    amount: u32,
    health_after: u32,
) -> GameMessageView {
    GameMessageView {
        message_type: MessageType::Healing,
        text: healing_text(item, target, amount),
        attacker: Some(item),
        target: Some(target),
        damage: Some(amount),
        target_health_after: Some(health_after),
        target_died: Some(false),
        is_crit: None,
    }
}

/// An event that is a text only.
pub open spec fn plain_message(message_type: MessageType, text: Seq<char>) -> GameMessageView {
    GameMessageView {
        message_type,
        text,
        attacker: None,
        target: None,
        damage: None,
        target_health_after: None,
        target_died: None,
        is_crit: None,
    }
}

fn hit_text(attacker: &String, verb_killed: &str, verb_dealt: &str, target: &String, damage: u32, died: bool) -> (text:
    String)
    ensures
        text@ == if died {
            attacker@ + verb_killed@ + target@ + "!"@
        } else {
            attacker@ + verb_dealt@ + decimal(damage as nat) + " damage to "@ + target@
        },
{
    let mut text = attacker.clone();
    if died {
        text.append(verb_killed);
        text.append(target.as_str());
        text.append("!");
    } else {
        let amount = u64_to_string(damage as u64);
        text.append(verb_dealt);
        text.append(amount.as_str());
        text.append(" damage to ");
        text.append(target.as_str());
    }
    text
}

impl GameMessage {
    /// The event of a hit.
    pub fn combat(attacker: String, target: String, damage: u32, health_after: u32, died: bool) -> (m:
        Self)
        ensures
            m@ == hit_message(attacker@, target@, damage, health_after, died, false),
    {
        let text = hit_text(&attacker, " killed ", " dealt ", &target, damage, died);
        GameMessage {
            message_type: MessageType::Combat,
            text,
            attacker: Some(attacker),
            target: Some(target),
            damage: Some(damage),
            target_health_after: Some(health_after),
            target_died: Some(died),
            is_crit: Some(false),
        }
    }

    /// The event of a critical hit.
    pub fn combat_crit(
        attacker: String,
        target: String,
        damage: u32,
        health_after: u32,
        died: bool,
    ) -> (m: Self)
        ensures
            m@ == hit_message(attacker@, target@, damage, health_after, died, true),
    {
        let text = hit_text(
            &attacker,
            " CRITICALLY killed ",
            " CRITICALLY dealt ",
            &target,
            damage,
            died,
        );
        GameMessage {
            message_type: MessageType::Combat,
            text,
            attacker: Some(attacker),
            target: Some(target),
            damage: Some(damage),
            target_health_after: Some(health_after),
            target_died: Some(died),
            is_crit: Some(true),
        }
    }

    /// The event of a healing.
    pub fn healing(item: String, target: String, amount: u32, health_after: u32) -> (m: Self)
        ensures
            m@ == healing_message(item@, target@, amount, health_after),
    {
        let mut text = item.clone();
        let number = u64_to_string(amount as u64);
        text.append(" healed ");
        text.append(target.as_str());
        text.append(" for ");
        text.append(number.as_str());
        text.append(" HP");
        GameMessage {
            message_type: MessageType::Healing,
            text,
            attacker: Some(item),
            target: Some(target),
            damage: Some(amount),
            target_health_after: Some(health_after),
            target_died: Some(false),
            is_crit: None,
        }
    }

    /// An event of the level, such as its end or its restart.
    pub fn level_event(text: String) -> (m: Self)
        ensures
            m@ == plain_message(MessageType::LevelEvent, text@),
    {
        GameMessage {
            message_type: MessageType::LevelEvent,
            text,
            attacker: None,
            target: None,
            damage: None,
            target_health_after: None,
            target_died: None,
            is_crit: None,
        }
    }

    /// An event of the system.
    pub fn system(text: String) -> (m: Self)
        ensures
            m@ == plain_message(MessageType::System, text@),
    {
        GameMessage {
            message_type: MessageType::System,
            text,
            attacker: None,
            target: None,
            damage: None,
            target_health_after: None,
            target_died: None,
            is_crit: None,
        }
    }
}

} // verus!
