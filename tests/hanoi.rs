use dynprog::hanoi::{move_disk, move_disks};

#[test]
fn test_move_disk() {
    let size = 5;
    let mut posts = vec![vec![0; size]; 3];

    // Put the disks on the first post in order, smallest first (on top).
    for i in 0..size {
        posts[0][i] = i + 1;
    }

    move_disk(&mut posts, 1, 3);
    assert_eq!(
        posts,
        vec![
            vec![0, 2, 3, 4, 5],
            vec![0, 0, 0, 0, 0],
            vec![0, 0, 0, 0, 1]
        ]
    );
    move_disk(&mut posts, 1, 2);
    assert_eq!(
        posts,
        vec![
            vec![0, 0, 3, 4, 5],
            vec![0, 0, 0, 0, 2],
            vec![0, 0, 0, 0, 1]
        ]
    );
    move_disk(&mut posts, 3, 2);
    assert_eq!(
        posts,
        vec![
            vec![0, 0, 3, 4, 5],
            vec![0, 0, 0, 1, 2],
            vec![0, 0, 0, 0, 0]
        ]
    );
    move_disk(&mut posts, 1, 3);
    assert_eq!(
        posts,
        vec![
            vec![0, 0, 0, 4, 5],
            vec![0, 0, 0, 1, 2],
            vec![0, 0, 0, 0, 3]
        ]
    );
    move_disk(&mut posts, 2, 1);
    assert_eq!(
        posts,
        vec![
            vec![0, 0, 1, 4, 5],
            vec![0, 0, 0, 0, 2],
            vec![0, 0, 0, 0, 3]
        ]
    );
    move_disk(&mut posts, 2, 3);
    assert_eq!(
        posts,
        vec![
            vec![0, 0, 1, 4, 5],
            vec![0, 0, 0, 0, 0],
            vec![0, 0, 0, 2, 3]
        ]
    );
    move_disk(&mut posts, 1, 3);
    assert_eq!(
        posts,
        vec![
            vec![0, 0, 0, 4, 5],
            vec![0, 0, 0, 0, 0],
            vec![0, 0, 1, 2, 3]
        ]
    );
}

#[test]
fn move_disks_solves_three_disks() {
    let size = 3;
    let mut posts = vec![vec![0; size]; 3];
    for i in 0..size {
        posts[0][i] = i + 1;
    }
    move_disks(&mut posts, size, 1, 3, 2);
    assert_eq!(posts, vec![vec![0, 0, 0], vec![0, 0, 0], vec![1, 2, 3]]);
}
