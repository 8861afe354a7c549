use chunk_streaming::{move_direction, IVec2, Item, ItemContainer, Motion, PlayerAnimationState};

#[test]
fn a_standing_player_starts_to_walk_the_way_it_moved() {
    let standing = PlayerAnimationState::StandStill(4);
    assert_eq!(standing.next(Motion::Left), PlayerAnimationState::WalkLeft(0));
    assert_eq!(standing.next(Motion::Right), PlayerAnimationState::WalkRight(0));
    assert_eq!(standing.next(Motion::Still), PlayerAnimationState::StandStill(4));
    assert_eq!(standing.next(Motion::Unknown), PlayerAnimationState::StandStill(4));
}

#[test]
fn a_walking_player_cycles_through_four_pictures() {
    let mut state = PlayerAnimationState::WalkRight(0);
    let mut shown = Vec::new();
    for _ in 0..6 {
        shown.push(state.atlas_index());
        state = state.next(Motion::Right);
    }
    assert_eq!(shown, vec![4, 5, 6, 7, 4, 5]);
    let mut state = PlayerAnimationState::WalkLeft(2);
    let mut shown = Vec::new();
    for _ in 0..5 {
        shown.push(state.atlas_index());
        state = state.next(Motion::Left);
    }
    assert_eq!(shown, vec![10, 11, 8, 9, 10]);
}

#[test]
fn a_walking_player_that_stops_or_turns_stands_first() {
    assert_eq!(
        PlayerAnimationState::WalkLeft(3).next(Motion::Still),
        PlayerAnimationState::StandStill(8)
    );
    assert_eq!(
        PlayerAnimationState::WalkLeft(3).next(Motion::Right),
        PlayerAnimationState::StandStill(8)
    );
    assert_eq!(
        PlayerAnimationState::WalkRight(1).next(Motion::Still),
        PlayerAnimationState::StandStill(4)
    );
    assert_eq!(
        PlayerAnimationState::WalkRight(1).next(Motion::Left),
        PlayerAnimationState::StandStill(4)
    );
    assert_eq!(
        PlayerAnimationState::WalkRight(3).next(Motion::Unknown),
        PlayerAnimationState::WalkRight(0)
    );
    assert_eq!(
        PlayerAnimationState::WalkLeft(1).next(Motion::Unknown),
        PlayerAnimationState::WalkLeft(2)
    );
    assert_eq!(PlayerAnimationState::StandStill(8).atlas_index(), 8);
}

#[test]
fn the_move_keys_give_a_direction() {
    assert_eq!(move_direction(false, false, false, false), None);
    assert_eq!(move_direction(true, false, false, false), Some(IVec2::new(0, 1)));
    assert_eq!(move_direction(false, true, false, false), Some(IVec2::new(0, -1)));
    assert_eq!(move_direction(false, false, true, false), Some(IVec2::new(-1, 0)));
    assert_eq!(move_direction(false, false, false, true), Some(IVec2::new(1, 0)));
    assert_eq!(move_direction(true, false, false, true), Some(IVec2::new(1, 1)));
    assert_eq!(move_direction(true, true, false, false), None);
    assert_eq!(move_direction(true, true, true, true), None);
    assert_eq!(move_direction(true, true, true, false), Some(IVec2::new(-1, 0)));
}

#[test]
fn an_item_keeps_what_it_was_made_of() {
    let item = Item::new("Bread", "bread", 1);
    assert_eq!(item.name, "Bread");
    assert_eq!(item.id, "bread");
    assert_eq!(item.texture_index, 1);
    assert_eq!(ItemContainer::with_bread(), ItemContainer { items: vec![Item::new("Bread", "bread", 1)] });
}
